//! The execution-environment supervisor contract, and the native no-op
//! implementation used when running without a virtual machine.

use vstd::prelude::*;

verus! {

/// Controls the system in which tests run: snapshots around each
/// iteration, and the panic events collected since the last reset.
pub trait Supervisor {
    /// Restores the clean snapshot.
    fn load_snapshot(&self) -> bool;

    /// Saves the clean snapshot.
    fn save_snapshot(&self) -> bool;

    /// Drains any pending events.
    fn reset_events(&mut self);

    /// Whether any panic event arrived since the last reset.
    fn had_panic_event(&mut self) -> bool;
}

/// The native supervisor: no machine to control, so every call
/// trivially succeeds and no panic is ever reported.
pub struct NativeSupervisor {}

impl NativeSupervisor {
    pub fn new() -> (r: NativeSupervisor) {
        NativeSupervisor {  }
    }
}

impl Supervisor for NativeSupervisor {
    fn load_snapshot(&self) -> (r: bool)
        ensures
            r,
    {
        true
    }

    fn save_snapshot(&self) -> (r: bool)
        ensures
            r,
    {
        true
    }

    fn reset_events(&mut self) {
    }

    fn had_panic_event(&mut self) -> (r: bool)
        ensures
            !r,
    {
        false
    }
}

} // verus!
