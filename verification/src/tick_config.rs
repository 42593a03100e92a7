//! The generic timer that drives the tick: its reload values.  The port
//! reads the counter frequency from the CPU and writes the reload values
//! this module computes into the timer.
#![allow(non_snake_case)]
use vstd::prelude::*;
use crate::config::configTICK_RATE_HZ;

verus! {

/// What the tick timer was set up with.
pub struct TickTimer {
    /// Counter ticks per second, as the CPU reports it.
    pub timer_cntfrq: cty::uint32_t,
    /// The reload value of one kernel tick.
    pub timer_tick: cty::uint32_t,
}

impl TickTimer {
    /// A timer not set up yet.
    pub fn new() -> (t: TickTimer)
        ensures
            t.timer_cntfrq == 0,
            t.timer_tick == 0,
    {
        TickTimer { timer_cntfrq: 0, timer_tick: 0 }
    }
}

/// Records the counter frequency `cntfrq`; the first reload is one second.
/// Returns the reload value to write.
pub fn init_timer(timer: &mut TickTimer, cntfrq: cty::uint32_t) -> (r: cty::uint32_t)
    ensures
        final(timer).timer_cntfrq == cntfrq,
        final(timer).timer_tick == cntfrq,
        r == cntfrq,
{
    timer.timer_cntfrq = cntfrq;
    timer.timer_tick = timer.timer_cntfrq;
    timer.timer_cntfrq
}

/// Sets the reload value for `rate` ticks per second: the counter
/// frequency divided by the rate.  Returns the reload value to write.
pub fn timer_set_tick_rate_hz(timer: &mut TickTimer, rate: cty::uint32_t) -> (r: cty::uint32_t)
    requires
        rate != 0,
    ensures
        final(timer).timer_cntfrq == old(timer).timer_cntfrq,
        final(timer).timer_tick == old(timer).timer_cntfrq / rate,
        r == final(timer).timer_tick,
{
    timer.timer_tick = timer.timer_cntfrq / rate;
    timer.timer_tick
}

/// Sets the timer up for the kernel's tick rate from the counter frequency
/// `cntfrq`, and returns the reload value of one tick.
pub fn vConfigureTickInterrupt(timer: &mut TickTimer, cntfrq: cty::uint32_t) -> (r: cty::uint32_t)
    ensures
        final(timer).timer_cntfrq == cntfrq,
        final(timer).timer_tick == cntfrq / configTICK_RATE_HZ,
        r == final(timer).timer_tick,
{
    init_timer(timer, cntfrq);
    timer_set_tick_rate_hz(timer, configTICK_RATE_HZ)
}

/// The reload value that clears a tick interrupt: one tick.
pub fn vClearTickInterrupt(timer: &TickTimer) -> (r: cty::uint32_t)
    ensures
        r == timer.timer_tick,
{
    timer.timer_tick
}

} // verus!
