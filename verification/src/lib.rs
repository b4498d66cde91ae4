//! An upgradeable function-dispatch registry.
//!
//! A long-lived [`route_table::RouteTable`] maps function selectors to code
//! modules.  The cut engine ([`cut::apply`]) reconfigures the table by atomic
//! batches of [`types::FacetCut`] operations, protecting the routes of a
//! designated frozen module.  [`dispatch::resolve`] answers, for a live call,
//! which module must receive it.  [`hooks::Hooks`] lets the embedding system
//! observe modules entering and leaving the registry.

pub mod types;
pub mod route_table;
pub mod cut;
pub mod dispatch;
pub mod hooks;
pub mod laws;
