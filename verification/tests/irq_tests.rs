use freertos::tick_config::{init_timer, timer_set_tick_rate_hz, vClearTickInterrupt, vConfigureTickInterrupt, TickTimer};
use freertos::irq::{handle_range, irq_handler, vApplicationIRQHandler, IrqAction};

#[test]
fn irq_source_bits_pick_handlers() {
    assert_eq!(vApplicationIRQHandler(0), IrqAction { tick: false, uart: false });
    assert_eq!(vApplicationIRQHandler(1 << 3), IrqAction { tick: true, uart: false });
    assert_eq!(vApplicationIRQHandler(1 << 8), IrqAction { tick: false, uart: true });
    assert_eq!(vApplicationIRQHandler((1 << 3) | (1 << 8) | 1), IrqAction { tick: true, uart: true });
    assert_eq!(vApplicationIRQHandler(0xFFF8_0000), IrqAction { tick: false, uart: false });
}

#[test]
fn pending_interrupts_come_highest_first() {
    assert_eq!(handle_range(0, 0), Vec::<u32>::new());
    assert_eq!(handle_range(0b1010_0001, 0), vec![7, 5, 0]);
    assert_eq!(handle_range(1 << 29, 0), vec![29]);
    assert_eq!(handle_range(0x8000_0001, 32), vec![63, 32]);
}


#[test]
fn tick_reload_values() {
    let mut t = TickTimer::new();
    assert_eq!(init_timer(&mut t, 62_500_000), 62_500_000);
    assert_eq!(timer_set_tick_rate_hz(&mut t, 100), 625_000);
    assert_eq!(vClearTickInterrupt(&t), 625_000);
    let mut u = TickTimer::new();
    assert_eq!(vConfigureTickInterrupt(&mut u, 19_200_000), 19_200);
    assert_eq!(u.timer_cntfrq, 19_200_000);
}

#[test]
fn both_ranges_dispatched_in_order() {
    assert_eq!(irq_handler(0x300, 0b101, 0b10), vec![2, 0, 33]);
    assert_eq!(irq_handler(0x100, 0b101, 0b10), vec![2, 0]);
    assert_eq!(irq_handler(0x200, 0b101, 0b10), vec![33]);
    assert_eq!(irq_handler(0x0FF, 0b101, 0b10), Vec::<u32>::new());
}
