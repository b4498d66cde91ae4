//! Extension points fired when a module enters or leaves the registry.
//!
//! The cut engine records module transitions as [`HookEvent`] values and
//! hands them out only after a batch has committed; [`fire_hooks`] then
//! invokes the embedding system's [`Hooks`] implementation once per event.
//! Hooks observe the registry; they do not receive the route table and so
//! cannot mutate it.

use vstd::prelude::*;
use crate::types::{HookEvent, ModuleId};

verus! {

/// The embedding system's observer.  `on_module_added` is invoked exactly
/// once when a module goes from zero routed selectors to at least one;
/// `on_module_removed` exactly once when it goes back to zero, whether by
/// full deregistration or by a cut that drops its last selector.
pub trait Hooks {
    fn on_module_added(&mut self, module: ModuleId);

    fn on_module_removed(&mut self, module: ModuleId);
}

/// The default observer: both hooks do nothing.
pub struct NoopHooks;

impl Hooks for NoopHooks {
    fn on_module_added(&mut self, module: ModuleId) {
    }

    fn on_module_removed(&mut self, module: ModuleId) {
    }
}

/// Delivers a committed batch's events to the observer, in the order the
/// cut engine produced them.
pub fn fire_hooks<H: Hooks>(hooks: &mut H, events: &Vec<HookEvent>) {
    let n = events.len();
    let mut i: usize = 0;
    while i < n
        invariant
            n == events@.len(),
            0 <= i <= n,
        decreases n - i,
    {
        match events[i] {
            HookEvent::ModuleAdded(module) => hooks.on_module_added(module),
            HookEvent::ModuleRemoved(module) => hooks.on_module_removed(module),
        }
        i += 1;
    }
}

} // verus!
