use vstd::prelude::*;

verus! {

/// Process-wide handle to the middleware instance.
///
/// A context is created once and explicitly shut down. A node can only be
/// created from a context that is still valid, and once the context is shut
/// down no new node can be spun up from it.
pub struct Context {
    /// Whether the context is still valid (not yet shut down).
    pub valid: bool,
}

impl Context {
    /// Creates a fresh, valid context.
    pub fn new() -> (r: Context)
        ensures
            r.valid,
    {
        Context { valid: true }
    }

    /// Reports whether the context is still valid.
    pub fn is_valid(&self) -> (r: bool)
        ensures
            r == self.valid,
    {
        self.valid
    }

    /// Shuts the context down; afterwards it is no longer valid.
    pub fn shutdown(&mut self)
        ensures
            !final(self).valid,
    {
        self.valid = false;
    }
}

} // verus!
