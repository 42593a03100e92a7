//! The port layer's memory and stack set-up, as this port provides them.
use vstd::prelude::*;
use crate::config::{FreeRtosError, StackType};

verus! {

/// Allocates `size` bytes for a task's stack.  A request of zero bytes
/// fails with `OutOfMemory`; any other request gets the null address, this
/// port having no memory of its own.
pub fn port_malloc(size: usize) -> (r: Result<usize, FreeRtosError>)
    ensures
        r == (if size == 0 {
            Err(FreeRtosError::OutOfMemory)
        } else {
            Ok(0usize)
        }),
{
    let ret_ptr: usize = 0;
    if size == 0 {
        Err(FreeRtosError::OutOfMemory)
    } else {
        Ok(ret_ptr)
    }
}

/// Lays out a task's first frame on its stack.  This port sets up no
/// frame: the result is always `PortError`.
pub fn port_initialize_stack(top_of_stack: usize, code: StackType, param_ptr: usize) -> (r: Result<
    usize,
    FreeRtosError,
>)
    ensures
        r == Err::<usize, FreeRtosError>(FreeRtosError::PortError),
{
    let ret_val: usize = 0;
    if ret_val == 0 {
        Err(FreeRtosError::PortError)
    } else {
        Ok(ret_val)
    }
}

} // verus!
