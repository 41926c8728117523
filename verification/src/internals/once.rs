//! One-time initialisation, modelled as the state a single thread of
//! control sees: 0 before, 1 while the initialiser runs, 2 after.
use vstd::prelude::*;

verus! {

pub struct Once {
    state: u8,
}

impl Once {
    /// The current state: 0 not started, 1 running, 2 done.
    pub closed spec fn view_state(&self) -> u8 {
        self.state
    }

    /// A `Once` that has not run.
    pub fn new() -> (o: Once)
        ensures
            o.view_state() == 0,
    {
        Once { state: 0 }
    }

    /// Runs `f` unless initialisation already finished. A `Once` whose
    /// initialiser is running is excluded: the call would wait for it.
    pub fn call_once<F: FnOnce()>(&mut self, f: F)
        requires
            old(self).view_state() != 1,
            old(self).view_state() == 0 ==> f.requires(()),
        ensures
            final(self).view_state() == if old(self).view_state() == 0 { 2 } else { old(self).view_state() },
    {
        if self.state == 2 {
            return;
        }
        if self.state == 0 {
            self.state = 1;
            f();
            self.state = 2;
        }
    }

    /// In a child process after `fork`, an initialiser that was running
    /// is forgotten so that it runs again.
    pub fn reset_at_fork(&mut self)
        ensures
            final(self).view_state() == if old(self).view_state() == 1 { 0 } else { old(self).view_state() },
    {
        if self.state == 1 {
            self.state = 0;
        }
    }

    /// The current state.
    pub fn get_state(&self) -> (s: u8)
        ensures
            s == self.view_state(),
    {
        self.state
    }
}

} // verus!
