//! The core of a small real-time kernel in the FreeRTOS mould, with its
//! proofs: the item lists that tasks wait in, the task control blocks, the
//! scheduler (ready, delayed and suspended tasks, the tick, context
//! switches), a bump heap, serial-port text, interrupt dispatch, a
//! paged-memory simulator with its TLB, and a spigot for the digits of pi.
use vstd::prelude::*;

pub mod config;
pub mod heap_1;
pub mod irq;
pub mod kernel;
pub mod linkedlist;
pub mod list;
pub mod mmuconf;
pub mod mmutest;
pub mod port;
pub mod spigot;
pub mod tasks;
pub mod task_global;
pub mod task_queue;
pub mod tick_config;
pub mod uart;
