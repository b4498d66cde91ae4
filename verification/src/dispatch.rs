//! Dispatch resolution: for each live call, which module must receive it.
//!
//! The dispatcher holds no state of its own; every call depends only on the
//! route table at the moment of lookup.  The delegated execution itself —
//! running the resolved module's code on the registry's own state, as a
//! terminal tail call — is the host's job; this module decides the target.

use vstd::prelude::*;
use crate::types::{ModuleId, Selector, DispatchError};
use crate::route_table::RouteTable;

verus! {

/// Resolves a live call's selector to the module that must receive it.
///
/// Returns `Ok(module)` exactly when the selector is routed, and
/// `Err(UnregisteredFunction)` exactly when it is not; there is no fallback
/// behavior.  On success the host forwards the call's payload unchanged into
/// the module as a tail call and performs no further local logic.
pub fn resolve(table: &RouteTable, selector: Selector) -> (r: Result<ModuleId, DispatchError>)
    requires
        table.inv(),
    ensures
        table.sel_map().dom().contains(selector) ==> r == Ok::<ModuleId, DispatchError>(table.sel_map()[selector]),
        !table.sel_map().dom().contains(selector) ==> r == Err::<ModuleId, DispatchError>(DispatchError::UnregisteredFunction),
{
    match table.lookup(selector) {
        Some(module) => Ok(module),
        None => Err(DispatchError::UnregisteredFunction),
    }
}

} // verus!
