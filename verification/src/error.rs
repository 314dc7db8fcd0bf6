//! What the pool and its sub-buffers report when they cannot do what was asked.

use vstd::prelude::*;

verus! {

/// No memory is left, on the host or on the device.
#[derive(Clone, Copy, Debug, PartialEq, Eq, Structural)]
pub enum OomError {
    /// The host has no memory left for the request.
    OutOfHostMemory,
    /// The request is larger than anything the device can address.
    OutOfDeviceMemory,
}

/// A buffer's memory could not be allocated.
#[derive(Clone, Copy, Debug, PartialEq, Eq, Structural)]
pub enum DeviceMemoryAllocError {
    /// Not enough memory.
    OomError(OomError),
}

/// A sub-buffer cannot be handed to the GPU.
#[derive(Clone, Copy, Debug, PartialEq, Eq, Structural)]
pub enum AccessError {
    /// The GPU holds the sub-buffer already.
    AlreadyInUse,
}

} // verus!
