//! The plain values that the registry works on: identifiers, cut requests,
//! initialization instructions, hook events and errors.

use vstd::prelude::*;

verus! {

/// A function identifier: a fixed-width opaque value derived from a call's
/// encoding.  Two calls target the same entry point exactly when their
/// selectors are equal; no ordering is attached to it.
#[derive(Clone, Copy, PartialEq, Eq, Structural, Debug)]
pub struct Selector {
    pub code: u32,
}

/// A module identifier: a fixed-width opaque value identifying a deployed
/// code module, for example a content hash of its bytecode.
#[derive(Clone, Copy, PartialEq, Eq, Structural, Debug)]
pub struct ModuleId {
    pub hi: u128,
    pub lo: u128,
}

/// One route change request: bind `selectors` (in the given order) to
/// `module`.  An empty `selectors` sequence means "fully deregister this
/// module".  Cuts are batched; the batch is applied atomically.
#[derive(Debug)]
pub struct FacetCut {
    pub module: ModuleId,
    pub selectors: Vec<Selector>,
}

/// A one-shot initialization instruction: after a batch of cuts commits, the
/// host performs one delegated call into `module` at `entry` with `payload`,
/// and the registry's own execution ends at that call.
#[derive(Debug)]
pub struct InitCall {
    pub module: ModuleId,
    pub entry: Selector,
    pub payload: Vec<u8>,
}

/// An observable module transition produced while applying a batch of cuts:
/// a module going from zero routed selectors to at least one, or back to
/// zero.  Events are handed to [`crate::hooks::Hooks`] only after the whole
/// batch has committed.
#[derive(Clone, Copy, PartialEq, Eq, Structural, Debug)]
pub enum HookEvent {
    ModuleAdded(ModuleId),
    ModuleRemoved(ModuleId),
}

/// Why a batch of cuts was rejected.  Both errors abort the entire batch;
/// the table is left exactly as it was.
#[derive(Clone, Copy, PartialEq, Eq, Structural, Debug)]
pub enum DiamondError {
    /// A cut targeted the frozen module, whose routes may never change.
    ImmutableFunction,
    /// A cut tried to bind a selector that is already bound to a different
    /// module; the payload names the module that currently holds it.
    ReplaceExisting(ModuleId),
}

/// Why a live call could not be completed.
#[derive(Clone, Copy, PartialEq, Eq, Structural, Debug)]
pub enum DispatchError {
    /// The selector has no bound module; there is no fallback behavior.
    UnregisteredFunction,
    /// The host's delegated execution into the resolved module failed.  The
    /// registry core never produces this value itself; the embedding host
    /// reports it when the forwarded call traps.
    CallError,
}

} // verus!
