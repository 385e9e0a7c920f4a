//! The execution context installed around each guest run.
//!
//! While a guest entry point runs, the context records which module is
//! active; the host-provided import callback is only legal for that
//! module. Installing a context over one that is still installed is a
//! programming error, so `setup` demands an empty context, and the
//! coordinator tears the context down on every exit path.

use vstd::prelude::*;

verus! {

/// The per-thread execution context: the currently running module, if
/// any.
pub struct Context {
    active: Option<u32>,
}

impl Context {
    /// The module the context is installed for, if any.
    pub closed spec fn active_module(&self) -> Option<u32> {
        self.active
    }

    /// Whether no context is installed.
    pub open spec fn spec_is_empty(&self) -> bool {
        self.active_module() is None
    }

    /// A fresh, empty context.
    pub fn new() -> (r: Context)
        ensures
            r.spec_is_empty(),
    {
        Context { active: None }
    }

    /// The module the context is installed for, if any.
    pub fn active(&self) -> (r: Option<u32>)
        ensures
            r == self.active_module(),
    {
        self.active
    }

    /// Whether no context is installed.
    pub fn is_empty(&self) -> (r: bool)
        ensures
            r == self.spec_is_empty(),
    {
        self.active.is_none()
    }

    /// Installs the context for a module about to run. The previous
    /// context must be fully empty: contexts never nest.
    pub fn setup(&mut self, module_id: u32)
        requires
            old(self).spec_is_empty(),
        ensures
            final(self).active_module() == Some(module_id),
    {
        self.active = Some(module_id);
    }

    /// Clears the context, whatever state it is in.
    pub fn teardown(&mut self)
        ensures
            final(self).spec_is_empty(),
    {
        self.active = None;
    }
}

} // verus!
