use freertos::config::{portMAX_DELAY, FreeRtosError};
use freertos::kernel::{
    create_idle_task, task_end_scheduler, task_get_scheduler_state, task_increment_tick, task_resume_all,
    task_start_scheduler, task_step_tick, task_suspend_all, task_switch_context, SchedulerState,
};
use freertos::list::{current_list_length, get_list_item_container, get_list_item_value, is_contained_within};
use freertos::task_global::Kernel;
use freertos::task_queue::{
    task_check_for_timeout, task_increment_mutex_held_count, task_missed_yield, task_place_on_event_list,
    task_remove_from_event_list, task_set_timeout_state, time_out,
};
use freertos::tasks::{
    add_current_task_to_delayed_list, is_task_suspended, reset_next_task_unblock_time, resume_task, task_delete,
    TaskControlBlock, TaskHandle,
};

fn spawn(k: &mut Kernel, prio: u64) -> TaskHandle {
    let tcb = TaskControlBlock::new().set_priority(prio).set_base_priority(prio);
    let h = TaskHandle::from(k, tcb);
    h.add_new_task_to_ready_list(k).unwrap();
    h
}

fn started(k: &mut Kernel) {
    k.scheduler_running = true;
    k.next_task_unblock_time = portMAX_DELAY;
}

fn ready_len(k: &Kernel, prio: usize) -> u64 {
    current_list_length(&k.store, k.ready_task_lists[prio])
}

#[test]
fn scheduler_state_reports() {
    let mut k = Kernel::new();
    assert_eq!(k.store.item_count(), 13);
    assert_eq!(k.store.list_count(), 13);
    assert_eq!(task_get_scheduler_state(&k), SchedulerState::NotStarted);
    started(&mut k);
    assert_eq!(task_get_scheduler_state(&k), SchedulerState::Running);
    task_suspend_all(&mut k);
    assert_eq!(task_get_scheduler_state(&k), SchedulerState::Suspended);
    task_end_scheduler(&mut k);
    assert_eq!(task_get_scheduler_state(&k), SchedulerState::NotStarted);
}

#[test]
fn first_and_higher_tasks_become_current_before_start() {
    let mut k = Kernel::new();
    let a = spawn(&mut k, 1);
    assert_eq!(k.current_tcb, Some(a.0));
    let b = spawn(&mut k, 3);
    assert_eq!(k.current_tcb, Some(b.0));
    let _c = spawn(&mut k, 2);
    assert_eq!(k.current_tcb, Some(b.0));
    assert_eq!(k.current_number_of_tasks, 3);
    assert_eq!(k.top_ready_priority, 3);
    assert_eq!(ready_len(&k, 1), 1);
    assert_eq!(ready_len(&k, 3), 1);
    // the state item keeps the default value of a new item
    assert_eq!(get_list_item_value(&k.store, k.tasks[a.0].state_list_item), portMAX_DELAY);
}

#[test]
fn switch_picks_highest_ready_priority() {
    let mut k = Kernel::new();
    let a = spawn(&mut k, 1);
    let b = spawn(&mut k, 3);
    started(&mut k);
    k.current_tcb = Some(a.0);
    task_switch_context(&mut k);
    assert_eq!(k.current_tcb, Some(b.0));
    assert_eq!(k.top_ready_priority, 3);
    assert!(!k.yield_pending);
}

#[test]
fn equal_priorities_take_turns() {
    let mut k = Kernel::new();
    let a = spawn(&mut k, 2);
    let b = spawn(&mut k, 2);
    started(&mut k);
    task_switch_context(&mut k);
    assert_eq!(k.current_tcb, Some(a.0));
    task_switch_context(&mut k);
    assert_eq!(k.current_tcb, Some(b.0));
    task_switch_context(&mut k);
    assert_eq!(k.current_tcb, Some(a.0));
}

#[test]
fn switch_while_suspended_only_marks_yield() {
    let mut k = Kernel::new();
    let a = spawn(&mut k, 1);
    started(&mut k);
    task_suspend_all(&mut k);
    task_switch_context(&mut k);
    assert!(k.yield_pending);
    assert_eq!(k.current_tcb, Some(a.0));
}

#[test]
fn delayed_task_wakes_on_its_tick() {
    let mut k = Kernel::new();
    let a = spawn(&mut k, 1);
    let b = spawn(&mut k, 2);
    started(&mut k);
    task_switch_context(&mut k);
    assert_eq!(k.current_tcb, Some(b.0));
    add_current_task_to_delayed_list(&mut k, 2, false);
    assert_eq!(get_list_item_container(&k.store, k.tasks[b.0].state_list_item), Some(k.delayed_task_list));
    assert_eq!(get_list_item_value(&k.store, k.tasks[b.0].state_list_item), 2);
    assert_eq!(k.next_task_unblock_time, 2);
    task_switch_context(&mut k);
    assert_eq!(k.current_tcb, Some(a.0));
    assert!(!task_increment_tick(&mut k));
    assert_eq!(k.tick_count, 1);
    assert!(is_contained_within(&k.store, k.delayed_task_list, k.tasks[b.0].state_list_item));
    assert!(task_increment_tick(&mut k));
    assert_eq!(k.tick_count, 2);
    assert!(is_contained_within(&k.store, k.ready_task_lists[2], k.tasks[b.0].state_list_item));
    assert_eq!(k.next_task_unblock_time, portMAX_DELAY);
    assert_eq!(k.top_ready_priority, 2);
}

#[test]
fn wake_time_past_the_wrap_goes_to_overflow_list() {
    let mut k = Kernel::new();
    let _a = spawn(&mut k, 1);
    let b = spawn(&mut k, 2);
    started(&mut k);
    k.tick_count = u32::MAX - 1;
    task_switch_context(&mut k);
    add_current_task_to_delayed_list(&mut k, 3, false);
    assert_eq!(
        get_list_item_container(&k.store, k.tasks[b.0].state_list_item),
        Some(k.overflow_delayed_task_list)
    );
    let overflow = k.overflow_delayed_task_list;
    task_switch_context(&mut k);
    task_increment_tick(&mut k);
    task_increment_tick(&mut k);
    // the count wrapped to zero: the lists traded places
    assert_eq!(k.tick_count, 0);
    assert_eq!(k.delayed_task_list, overflow);
}

#[test]
fn time_slicing_requires_switch() {
    let mut k = Kernel::new();
    let _a = spawn(&mut k, 2);
    let _b = spawn(&mut k, 2);
    started(&mut k);
    task_switch_context(&mut k);
    assert!(task_increment_tick(&mut k));
}

#[test]
fn ticks_while_suspended_are_pended_then_run() {
    let mut k = Kernel::new();
    let _a = spawn(&mut k, 1);
    started(&mut k);
    task_switch_context(&mut k);
    task_suspend_all(&mut k);
    assert!(!task_increment_tick(&mut k));
    assert!(!task_increment_tick(&mut k));
    assert_eq!(k.pended_ticks, 2);
    assert_eq!(k.tick_count, 0);
    let yielded = task_resume_all(&mut k);
    assert!(!yielded);
    assert_eq!(k.pended_ticks, 0);
    assert_eq!(k.tick_count, 2);
    assert_eq!(k.scheduler_suspended, 0);
}

#[test]
fn nested_suspend_resume_changes_nothing() {
    let mut k = Kernel::new();
    let _a = spawn(&mut k, 1);
    task_suspend_all(&mut k);
    let before = (k.scheduler_suspended, k.tick_count, k.current_tcb, k.top_ready_priority);
    task_suspend_all(&mut k);
    assert!(!task_resume_all(&mut k));
    assert_eq!((k.scheduler_suspended, k.tick_count, k.current_tcb, k.top_ready_priority), before);
}

#[test]
fn step_tick_jumps() {
    let mut k = Kernel::new();
    k.next_task_unblock_time = 10;
    task_step_tick(&mut k, 10);
    assert_eq!(k.tick_count, 10);
}

#[test]
fn event_list_block_and_wake() {
    let mut k = Kernel::new();
    let a = spawn(&mut k, 1);
    let b = spawn(&mut k, 2);
    started(&mut k);
    let event = k.store.new_list();
    task_switch_context(&mut k);
    assert_eq!(k.current_tcb, Some(b.0));
    task_place_on_event_list(&mut k, event, 10);
    assert!(is_contained_within(&k.store, event, k.tasks[b.0].event_list_item));
    assert!(is_contained_within(&k.store, k.delayed_task_list, k.tasks[b.0].state_list_item));
    assert_eq!(k.next_task_unblock_time, 10);
    task_switch_context(&mut k);
    assert_eq!(k.current_tcb, Some(a.0));
    // b has a higher priority than the running a: no "lower priority" mark
    assert!(!task_remove_from_event_list(&mut k, event));
    assert_eq!(current_list_length(&k.store, event), 0);
    assert!(is_contained_within(&k.store, k.ready_task_lists[2], k.tasks[b.0].state_list_item));
    assert_eq!(k.next_task_unblock_time, portMAX_DELAY);
}

#[test]
fn event_wake_while_suspended_goes_pending() {
    let mut k = Kernel::new();
    let a = spawn(&mut k, 2);
    let b = spawn(&mut k, 1);
    started(&mut k);
    let event = k.store.new_list();
    k.current_tcb = Some(b.0);
    task_place_on_event_list(&mut k, event, portMAX_DELAY);
    assert!(is_contained_within(&k.store, k.suspended_task_list, k.tasks[b.0].state_list_item));
    k.current_tcb = Some(a.0);
    task_suspend_all(&mut k);
    assert!(task_remove_from_event_list(&mut k, event));
    assert!(k.yield_pending);
    assert!(is_contained_within(&k.store, k.pending_ready_list, k.tasks[b.0].event_list_item));
    task_missed_yield(&mut k);
    assert!(!k.yield_pending);
    task_resume_all(&mut k);
    assert_eq!(current_list_length(&k.store, k.pending_ready_list), 0);
    assert!(is_contained_within(&k.store, k.ready_task_lists[1], k.tasks[b.0].state_list_item));
}

#[test]
fn timeout_counts_down_then_expires() {
    let mut k = Kernel::new();
    let _a = spawn(&mut k, 1);
    let mut t = time_out::default();
    task_set_timeout_state(&k, &mut t);
    assert_eq!(t.time_on_entering, 0);
    let mut wait: u32 = 5;
    k.tick_count = 3;
    assert!(!task_check_for_timeout(&mut k, &mut t, &mut wait));
    assert_eq!(wait, 2);
    assert_eq!(t.time_on_entering, 3);
    k.tick_count = 6;
    assert!(task_check_for_timeout(&mut k, &mut t, &mut wait));
    assert_eq!(wait, 2);
}

#[test]
fn timeout_after_overflow() {
    let mut k = Kernel::new();
    let _a = spawn(&mut k, 1);
    let mut t = time_out { overflow_count: 0, time_on_entering: 4 };
    k.num_of_overflows = 1;
    k.tick_count = 5;
    let mut wait: u32 = 100;
    assert!(task_check_for_timeout(&mut k, &mut t, &mut wait));
}

#[test]
fn priority_change_in_detail() {
    let mut k = Kernel::new();
    let a = spawn(&mut k, 1);
    let z = spawn(&mut k, 0);
    let c = spawn(&mut k, 2);
    started(&mut k);
    k.current_tcb = Some(c.0);
    // another task raised above the running one: yield
    assert!(a.set_priority_in_detail(&mut k, 3));
    assert_eq!(k.tasks[a.0].priority, 3);
    assert_eq!(k.tasks[a.0].base_priority, 3);
    // only a task of the lowest ready list moves
    assert!(is_contained_within(&k.store, k.ready_task_lists[1], k.tasks[a.0].state_list_item));
    assert!(!z.set_priority_in_detail(&mut k, 1));
    assert!(is_contained_within(&k.store, k.ready_task_lists[1], k.tasks[z.0].state_list_item));
    // requests above the number of priorities are cut
    assert!(z.set_priority_in_detail(&mut k, 100));
    assert_eq!(k.tasks[z.0].priority, 7);
}

#[test]
fn suspended_task_resumes() {
    let mut k = Kernel::new();
    let a = spawn(&mut k, 1);
    let b = spawn(&mut k, 2);
    started(&mut k);
    k.current_tcb = Some(b.0);
    add_current_task_to_delayed_list(&mut k, portMAX_DELAY, true);
    assert!(is_task_suspended(&k, &b));
    assert!(!is_task_suspended(&k, &a));
    k.current_tcb = Some(a.0);
    assert!(resume_task(&mut k, b));
    assert!(!is_task_suspended(&k, &b));
    assert!(is_contained_within(&k.store, k.ready_task_lists[2], k.tasks[b.0].state_list_item));
    // a task that is not suspended is left alone
    assert!(!resume_task(&mut k, b));
}

#[test]
fn deleting_tasks() {
    let mut k = Kernel::new();
    let a = spawn(&mut k, 1);
    let b = spawn(&mut k, 2);
    started(&mut k);
    k.current_tcb = Some(b.0);
    task_delete(&mut k, Some(a));
    assert_eq!(k.current_number_of_tasks, 1);
    assert_eq!(get_list_item_container(&k.store, k.tasks[a.0].state_list_item), None);
    assert_eq!(k.task_number, 3);
    task_delete(&mut k, None);
    assert_eq!(k.deleted_tasks_waiting_clean_up, 1);
    assert!(is_contained_within(&k.store, k.tasks_waiting_termination, k.tasks[b.0].state_list_item));
    assert_eq!(k.current_number_of_tasks, 1);
}

#[test]
fn starting_fails_on_this_port() {
    let mut k = Kernel::new();
    assert_eq!(task_start_scheduler(&mut k), Err(FreeRtosError::PortError));
    assert!(!k.scheduler_running);
    assert_eq!(create_idle_task(&mut k), Err(FreeRtosError::PortError));
    assert_eq!(k.tasks.len(), 0);
    let mut tcb = TaskControlBlock::new();
    tcb.set_stack_length(0);
    assert_eq!(tcb.initialize(&mut k, 0), Err(FreeRtosError::OutOfMemory));
}

#[test]
fn mutex_count_of_running_task() {
    let mut k = Kernel::new();
    assert_eq!(task_increment_mutex_held_count(&mut k), None);
    let a = spawn(&mut k, 1);
    assert_eq!(task_increment_mutex_held_count(&mut k), Some(a));
    assert_eq!(a.get_mutex_held_count(&k), 1);
}

#[test]
fn next_unblock_time_follows_delayed_head() {
    let mut k = Kernel::new();
    let _a = spawn(&mut k, 1);
    let b = spawn(&mut k, 2);
    started(&mut k);
    k.current_tcb = Some(b.0);
    add_current_task_to_delayed_list(&mut k, 7, false);
    k.next_task_unblock_time = 0;
    reset_next_task_unblock_time(&mut k);
    assert_eq!(k.next_task_unblock_time, 7);
}

#[test]
fn task_handle_accessors() {
    let mut k = Kernel::new();
    let a = spawn(&mut k, 1);
    assert_eq!(a.get_priority(&k), 1);
    a.set_priority(&mut k, 4);
    assert_eq!(a.get_priority(&k), 4);
    assert_eq!(a.get_base_priority(&k), 1);
    a.set_base_priority(&mut k, 9);
    assert_eq!(a.get_base_priority(&k), 7);
    assert_eq!(a.set_runtime(&mut k, 5), 0);
    assert_eq!(a.get_runtime(&k), 5);
    assert!(!a.set_delay_aborted(&mut k, true));
    assert!(a.get_delay_aborted(&k));
    a.set_mutex_held_count(&mut k, 2);
    assert_eq!(a.get_mutex_held_count(&k), 2);
    assert_eq!(a.get_name(&k), "New task");
    assert_ne!(a.get_state_list_item(&k), a.get_event_list_item(&k));
}

#[test]
fn control_block_fields() {
    let mut tcb = TaskControlBlock::new();
    assert_eq!(tcb.get_priority(), 1);
    assert_eq!(tcb.get_name(), "New task");
    tcb.set_name("Idle");
    assert_eq!(tcb.get_name(), "Idle");
    let tcb = tcb.set_priority(20).set_base_priority(3);
    assert_eq!(tcb.get_priority(), 7);
    assert_eq!(tcb.get_base_priority(), 3);
    let mut tcb = tcb;
    assert_eq!(tcb.set_runtime(4), 0);
    assert_eq!(tcb.get_runtime(), 4);
    assert!(!tcb.set_delay_aborted(true));
    assert!(tcb.get_delay_aborted());
    tcb.set_mutex_held_count(3);
    assert_eq!(tcb.get_mutex_held_count(), 3);
    assert_eq!(tcb.get_stack_list_item(), 0);
    assert_eq!(tcb.get_event_list_item(), 0);
}

#[test]
fn tick_takes_timed_out_task_off_its_event_list() {
    let mut k = Kernel::new();
    let a = spawn(&mut k, 1);
    let b = spawn(&mut k, 2);
    started(&mut k);
    let event = k.store.new_list();
    task_switch_context(&mut k);
    assert_eq!(k.current_tcb, Some(b.0));
    task_place_on_event_list(&mut k, event, 1);
    assert_eq!(current_list_length(&k.store, event), 1);
    task_switch_context(&mut k);
    assert_eq!(k.current_tcb, Some(a.0));
    // the wait times out: the woken task outranks the running one
    assert!(task_increment_tick(&mut k));
    assert_eq!(current_list_length(&k.store, event), 0);
    assert_eq!(get_list_item_container(&k.store, k.tasks[b.0].event_list_item), None);
    assert!(is_contained_within(&k.store, k.ready_task_lists[2], k.tasks[b.0].state_list_item));
    assert_eq!(k.next_task_unblock_time, portMAX_DELAY);
}

#[test]
fn resume_runs_pended_ticks_after_moving_pending_tasks() {
    let mut k = Kernel::new();
    let a = spawn(&mut k, 1);
    let b = spawn(&mut k, 2);
    let c = spawn(&mut k, 3);
    started(&mut k);
    let event = k.store.new_list();
    k.current_tcb = Some(b.0);
    task_place_on_event_list(&mut k, event, portMAX_DELAY);
    k.current_tcb = Some(c.0);
    add_current_task_to_delayed_list(&mut k, 1, false);
    k.current_tcb = Some(a.0);
    task_suspend_all(&mut k);
    assert!(task_remove_from_event_list(&mut k, event) == false);
    assert!(!task_increment_tick(&mut k));
    assert_eq!(k.pended_ticks, 1);
    // b leaves the pending list, then the pended tick wakes c
    assert!(task_resume_all(&mut k));
    assert_eq!(k.tick_count, 1);
    assert!(is_contained_within(&k.store, k.ready_task_lists[2], k.tasks[b.0].state_list_item));
    assert!(is_contained_within(&k.store, k.ready_task_lists[3], k.tasks[c.0].state_list_item));
    assert_eq!(current_list_length(&k.store, k.pending_ready_list), 0);
    assert_eq!(current_list_length(&k.store, k.delayed_task_list), 0);
}
