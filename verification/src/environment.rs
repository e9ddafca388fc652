//! The environment: what is known of the host's memory.
//!
//! The library takes no reading itself. Whoever serves a call reads the
//! host's figure and hands it over; the environment decides what of it is
//! reported.

use vstd::prelude::*;

verus! {

/// The environment that a runtime state is bound to.
#[derive(Clone, Copy, Debug, PartialEq, Eq, Structural)]
pub enum Environment {
    /// Bound to no host: the stand-in that a state starts with.
    Stub,
    /// Bound to the host that runs the service.
    Live,
}

impl Environment {
    /// The memory in use, in bytes, that this environment reports when the
    /// host's figure is `host_bytes`: nothing for the stub, the host's
    /// figure for a live environment.
    pub open spec fn reported(self, host_bytes: u64) -> u64 {
        match self {
            Environment::Stub => 0,
            Environment::Live => host_bytes,
        }
    }

    /// The memory in use, in bytes, given the host's figure at this moment.
    pub fn memory_used(&self, host_bytes: u64) -> (bytes: u64)
        ensures
            bytes == self.reported(host_bytes),
    {
        match self {
            Environment::Stub => 0,
            Environment::Live => host_bytes,
        }
    }
}

impl Default for Environment {
    /// The stub.
    fn default() -> (environment: Self)
        ensures
            environment == Environment::Stub,
    {
        Environment::Stub
    }
}

} // verus!
