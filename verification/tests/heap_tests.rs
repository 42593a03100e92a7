use freertos::heap_1::{
    configADJUSTED_HEAP_SIZE, pvPortMalloc, vPortFree, vPortInitialiseBlocks, xPortGetFreeHeapSize, HeapState,
};
use freertos::port::{port_initialize_stack, port_malloc};
use freertos::config::FreeRtosError;

#[test]
fn blocks_follow_one_another() {
    let mut h = HeapState::new();
    assert_eq!(xPortGetFreeHeapSize(&h), configADJUSTED_HEAP_SIZE);
    assert_eq!(configADJUSTED_HEAP_SIZE, 126960);
    // 8 has no bit of the mask set: no padding
    assert_eq!(pvPortMalloc(&mut h, 8), Some(0));
    // 4 has the mask bit set: padded by 16 - 4 to 16
    assert_eq!(pvPortMalloc(&mut h, 4), Some(8));
    // 5 is padded to 17
    assert_eq!(pvPortMalloc(&mut h, 5), Some(24));
    assert_eq!(h.next_free_byte, 41);
    assert_eq!(xPortGetFreeHeapSize(&h), configADJUSTED_HEAP_SIZE - 41);
}

#[test]
fn zero_and_oversized_requests_fail() {
    let mut h = HeapState::new();
    assert_eq!(pvPortMalloc(&mut h, 0), None);
    assert_eq!(pvPortMalloc(&mut h, configADJUSTED_HEAP_SIZE + 1), None);
    assert_eq!(h.next_free_byte, 0);
    assert_eq!(pvPortMalloc(&mut h, configADJUSTED_HEAP_SIZE), Some(0));
    assert_eq!(xPortGetFreeHeapSize(&h), 0);
    assert_eq!(pvPortMalloc(&mut h, 1), None);
}

#[test]
fn free_does_nothing_and_initialise_resets() {
    let mut h = HeapState::new();
    let a = pvPortMalloc(&mut h, 16);
    vPortFree(&mut h, a);
    assert_eq!(h.next_free_byte, 16);
    vPortInitialiseBlocks(&mut h);
    assert_eq!(h.next_free_byte, 0);
    assert_eq!(pvPortMalloc(&mut h, 16), Some(0));
}

#[test]
fn port_malloc_fails_only_for_zero() {
    assert_eq!(port_malloc(0), Err(FreeRtosError::OutOfMemory));
    assert_eq!(port_malloc(64), Ok(0));
}

#[test]
fn port_stack_setup_fails() {
    assert_eq!(port_initialize_stack(0, 32, 0), Err(FreeRtosError::PortError));
}

#[test]
fn free_size_counts_down_by_granted_blocks() {
    let mut h = HeapState::new();
    vPortInitialiseBlocks(&mut h);
    assert_eq!(xPortGetFreeHeapSize(&h), 126960);
    assert_eq!(pvPortMalloc(&mut h, 20), Some(0));
    assert_eq!(pvPortMalloc(&mut h, 16), Some(32));
    assert_eq!(pvPortMalloc(&mut h, 200_000), None);
    assert_eq!(xPortGetFreeHeapSize(&h), 126960 - 48);
}
