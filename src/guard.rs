use vstd::prelude::*;

verus! {

/// The deepest nesting of non-empty containers that one conversion call may enter.
pub const RECURSION_LIMIT: usize = 999;

/// A ceiling on a counter.
#[derive(Clone, Copy, Debug)]
pub struct Limit(pub usize);

impl Limit {
    /// Whether `value` is still below the ceiling.
    pub fn value_limit(&self, value: usize) -> (r: bool)
        ensures
            r == (value < self.0),
    {
        value < self.0
    }
}

/// Raised when a conversion would enter one container more than the ceiling allows.
#[derive(Clone, Copy, Debug, PartialEq, Eq, Structural)]
pub struct DepthExceeded;

/// The depth counter of one top-level conversion call.
#[derive(Clone, Copy, Debug)]
pub struct RecursionGuard {
    pub current: usize,
    pub limit: Limit,
}

impl RecursionGuard {
    /// The counter never passes its ceiling.
    pub open spec fn wf(&self) -> bool {
        self.current <= self.limit.0
    }

    /// How many more containers may still be entered.
    pub open spec fn room(&self) -> int {
        self.limit.0 - self.current
    }

    /// Steps one container deeper, or fails once the ceiling has been reached.
    pub fn enter(&mut self) -> (r: Result<(), DepthExceeded>)
        ensures
            final(self).limit == old(self).limit,
            r is Ok <==> old(self).current < old(self).limit.0,
            r is Ok ==> final(self).current == old(self).current + 1,
            r is Err ==> final(self).current == old(self).current,
    {
        if !self.limit.value_limit(self.current) {
            return Err(DepthExceeded);
        }
        self.current = self.current + 1;
        Ok(())
    }

    /// Steps back out of a container.
    pub fn exit(&mut self)
        requires
            old(self).current > 0,
        ensures
            final(self).limit == old(self).limit,
            final(self).current == old(self).current - 1,
    {
        self.current = self.current - 1;
    }
}

impl Default for RecursionGuard {
    fn default() -> (r: Self)
        ensures
            r.current == 0,
            r.limit.0 == RECURSION_LIMIT,
    {
        RecursionGuard { current: 0, limit: Limit(RECURSION_LIMIT) }
    }
}

} // verus!
