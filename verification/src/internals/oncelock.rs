//! A value initialised once.
use crate::internals::once::Once;
use vstd::prelude::*;

verus! {

pub struct OnceLock<T> {
    init: Once,
    value: Option<T>,
}

impl<T> OnceLock<T> {
    pub closed spec fn wf(&self) -> bool {
        &&& self.init.view_state() <= 2
        &&& self.init.view_state() == 2 ==> self.value is Some
    }

    /// The state of the one-time initialisation.
    pub closed spec fn state(&self) -> u8 {
        self.init.view_state()
    }

    /// The stored value, once there is one.
    pub closed spec fn value(&self) -> Option<T> {
        self.value
    }

    /// An empty cell.
    pub fn new() -> (c: Self)
        ensures
            c.wf(),
            c.state() == 0,
            c.value() is None,
    {
        OnceLock { init: Once::new(), value: None }
    }

    /// The stored value; on the first call, `f` computes and stores it.
    pub fn get_or_init<F: FnOnce() -> T>(&mut self, f: F) -> (r: &T)
        requires
            old(self).wf(),
            old(self).state() != 1,
            old(self).state() == 0 ==> f.requires(()),
        ensures
            final(self).wf(),
            final(self).state() == 2,
            old(self).state() == 2 ==> final(self).value() == old(self).value(),
            old(self).state() == 0 ==> exists|v: T| f.ensures((), v) && final(self).value() == Some(v),
            final(self).value() == Some(*r),
    {
        if self.init.get_state() == 0 {
            let v = f();
            self.value = Some(v);
            self.init.call_once(|| {});
        }
        self.value.as_ref().unwrap()
    }

    /// The stored value, which must be there.
    pub fn get(&self) -> (r: &T)
        requires
            self.value() is Some,
        ensures
            self.value() == Some(*r),
    {
        self.value.as_ref().unwrap()
    }

    /// In a child process after `fork`, an initialisation that was running
    /// is forgotten.
    pub fn reset_on_fork(&mut self)
        requires
            old(self).wf(),
        ensures
            final(self).wf(),
            final(self).value() == old(self).value(),
            final(self).state() == if old(self).state() == 1 { 0 } else { old(self).state() },
    {
        self.init.reset_at_fork();
    }
}

} // verus!
