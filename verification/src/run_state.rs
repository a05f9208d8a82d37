//! The flag through which a shutdown request reaches the monitoring loop.

use vstd::prelude::*;

verus! {

/// Whether the monitoring loop shall go on. The flag starts set; the listener
/// for termination requests clears it, and nothing sets it again.
#[derive(Debug)]
pub struct RunState {
    running: bool,
}

impl RunState {
    /// Whether the loop shall go on.
    pub closed spec fn running(&self) -> bool {
        self.running
    }

    /// A flag that tells the loop to run.
    pub fn new() -> (state: RunState)
        ensures
            state.running(),
    {
        RunState { running: true }
    }

    /// Records a termination request. Further requests change nothing.
    pub fn request_stop(&mut self)
        ensures
            !final(self).running(),
    {
        self.running = false;
    }

    /// Whether the loop shall go on.
    pub fn is_running(&self) -> (running: bool)
        ensures
            running == self.running(),
    {
        self.running
    }
}

} // verus!
