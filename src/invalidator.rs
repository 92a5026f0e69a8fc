use vstd::prelude::*;

verus! {

/// A value that remembers whether it was written since the last `reset`.
pub struct Invalidator<T> {
    inner: T,
    invalidated: bool,
}

impl<T> Invalidator<T> {
    pub closed spec fn value(&self) -> T {
        self.inner
    }

    pub closed spec fn is_invalidated(&self) -> bool {
        self.invalidated
    }

    pub fn new(inner: T) -> (r: Self)
        ensures
            r.value() == inner,
            !r.is_invalidated(),
    {
        Invalidator { inner, invalidated: false }
    }

    /// Forgets earlier writes.
    pub fn reset(&mut self)
        ensures
            final(self).value() == old(self).value(),
            !final(self).is_invalidated(),
    {
        self.invalidated = false;
    }

    /// Whether the value was written since the last `reset`.
    pub fn invalidated(&self) -> (r: bool)
        ensures
            r == self.is_invalidated(),
    {
        self.invalidated
    }

    /// Reads the value; reading does not invalidate.
    pub fn get(&self) -> (r: &T)
        ensures
            *r == self.value(),
    {
        &self.inner
    }

    /// Writable access to the value; marks it written.
    pub fn get_mut(&mut self) -> (r: &mut T)
        ensures
            *r == old(self).value(),
            final(self).value() == *final(r),
            final(self).is_invalidated(),
    {
        self.invalidated = true;
        &mut self.inner
    }

    /// Replaces the value; marks it written.
    pub fn set(&mut self, value: T)
        ensures
            final(self).value() == value,
            final(self).is_invalidated(),
    {
        self.inner = value;
        self.invalidated = true;
    }
}

} // verus!
