//! Error vocabulary of the GPU boundary.
//!
//! The core is specified against an abstract device capability; creating
//! the concrete rendering context is the host's work, and these are the
//! errors it reports back in the library's terms.

use vstd::prelude::*;

verus! {

/// Failure to create a rendering context.
#[derive(Clone, Debug, PartialEq, Eq, Structural)]
pub enum ContextError {
    /// No suitable graphics adapter was found.
    RequestAdapterError,
    /// The adapter refused to provide a device.
    RequestDeviceError,
}

/// Failure to create the top-level GPU context.
#[derive(Clone, Debug, PartialEq, Eq, Structural)]
pub enum WgpuContextError {
    /// No suitable graphics adapter was found.
    RequestAdapterError,
    /// The adapter refused to provide a device.
    RequestDeviceError,
}

/// The error returned by diagnostic texture export when the hosting build
/// has its debug facilities disabled.
#[derive(Clone, Copy, Debug, PartialEq, Eq, Structural)]
pub struct DebugNotEnabled;

impl ContextError {
    /// Whether retrying with another adapter could help.
    pub fn is_adapter_failure(&self) -> (r: bool)
        ensures
            r == (*self is RequestAdapterError),
    {
        match self {
            ContextError::RequestAdapterError => true,
            ContextError::RequestDeviceError => false,
        }
    }
}

impl WgpuContextError {
    /// Whether retrying with another adapter could help.
    pub fn is_adapter_failure(&self) -> (r: bool)
        ensures
            r == (*self is RequestAdapterError),
    {
        match self {
            WgpuContextError::RequestAdapterError => true,
            WgpuContextError::RequestDeviceError => false,
        }
    }
}

} // verus!
