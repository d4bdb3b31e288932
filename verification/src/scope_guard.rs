use vstd::prelude::*;

verus! {

/// Holds a callback to run when a scope is left, unless it is released
/// first.
pub struct ScopeGuard<T> where T: FnOnce() {
    callback: Option<T>,
}

impl<T> ScopeGuard<T> where T: FnOnce() {
    /// The callback it still holds, if any.
    pub closed spec fn callback(&self) -> Option<T> {
        self.callback
    }

    pub fn new(callback: T) -> (r: ScopeGuard<T>)
        ensures
            r.callback() == Some(callback),
    {
        ScopeGuard::<T> { callback: Some(callback) }
    }

    /// Forgets the callback: leaving the scope will run nothing.
    pub fn release(&mut self)
        ensures
            final(self).callback() == None::<T>,
    {
        self.callback = None;
    }

    /// Leaves the scope: runs the callback if the guard still holds it, and
    /// says whether it did.
    pub fn fire(self) -> (ran: bool)
        requires
            self.callback() is Some ==> call_requires(self.callback()->0, ()),
        ensures
            ran == self.callback() is Some,
            ran ==> call_ensures(self.callback()->0, (), ()),
    {
        match self.callback {
            Some(callback) => {
                callback();
                true
            },
            None => false,
        }
    }
}

} // verus!
