//! The kernel's configuration and the port's basic types.
use vstd::prelude::*;

verus! {

/// The unsigned base type of the port.
pub type UBaseType = u64;

/// The signed base type of the port.
pub type BaseType = i64;

/// The tick counter type of the port.
pub type TickType = u32;

/// A machine word on the stack.
pub type StackType = usize;

/// The largest tick value: a wait that never times out, and the value of an
/// item that sorts last.
pub const portMAX_DELAY: TickType = 0xffff_ffffu32;

/// Number of task priorities.
pub const configMAX_PRIORITIES: UBaseType = 8u64;

/// Stack length of a new task, in words.
pub const configMINIMAL_STACK_SIZE: UBaseType = 200u64;

/// Tick interrupts per second.
pub const configTICK_RATE_HZ: u32 = 1000u32;

/// Bytes of the heap.
pub const configTOTAL_HEAP_SIZE: usize = 126976usize;

/// Alignment of heap blocks.
pub const portBYTE_ALIGNMENT: usize = 16usize;

/// Mask that tells whether a size needs padding.
pub const portBYTE_ALIGNMENT_MASK: usize = 4usize;

/// Milliseconds per tick.
pub const portTICK_PERIOD_MS: u64 = 1u64;

/// The idle task's priority.
pub const tskIDLE_PRIORITY: UBaseType = 0u64;

/// Marks an event item whose value is not a priority.
pub const taskEVENT_LIST_ITEM_VALUE_IN_USE: TickType = 0x8000_0000u32;

/// The boolean values of the port.
pub const pdFALSE: UBaseType = 0u64;

/// The boolean values of the port.
pub const pdTRUE: UBaseType = 1u64;

/// A higher priority task that becomes ready preempts the running one.
pub const configUSE_PREEMPTION: bool = true;

/// Tasks of equal priority share the processor tick by tick.
pub const configUSE_TIME_SLICING: bool = true;

/// A task waiting forever is suspended rather than delayed.
pub const INCLUDE_vTaskSuspend: bool = true;

/// A task's delay can be aborted.
pub const INCLUDE_xTaskAbortDelay: bool = true;

/// Tasks keep a base priority and a count of held mutexes.
pub const configUSE_MUTEXES: bool = true;

/// The scheduler accounts run time per task.
pub const configGENERATE_RUN_TIME_STATS: bool = true;

/// Errors of the kernel.
#[derive(Clone, Copy, Debug, PartialEq, Eq)]
pub enum FreeRtosError {
    OutOfMemory,
    PortError,
    QueueSendTimeout,
    QueueReceiveTimeout,
    QueueFull,
    QueueEmpty,
}

} // verus!
