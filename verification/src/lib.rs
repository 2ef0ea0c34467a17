//! Userscript registry and cross-context execution bridge.
//!
//! The library keeps an ordered collection of user-supplied scripts and a
//! shared cache of their remote dependencies, decides when scripts are
//! re-fetched, assembles the single injection payload handed to the hosting
//! shell, and pairs asynchronous privileged requests with their replies by
//! correlation id. Network and file I/O stay outside the library: callers
//! perform each HTTP GET the library asks for and hand the outcome back.
use vstd::prelude::*;

pub mod assemble;
pub mod bridge;
pub mod codec;
pub mod errors;
pub mod fetch;
pub mod meta;
pub mod proxy;
pub mod registry;
pub mod script;
pub mod strutil;

verus! {

/// State consulted by the hosting shell while a window is being rebuilt,
/// so that closing the old window is not taken for an application exit.
pub struct ReloadState {
    pub reloading: bool,
}

/// Marks whether a scripted window reload is in progress.
pub fn set_reloading(state: &mut ReloadState, value: bool)
    ensures
        final(state).reloading == value,
{
    state.reloading = value;
}

/// Reports whether a scripted window reload is in progress.
pub fn is_reloading(state: &ReloadState) -> (r: bool)
    ensures
        r == state.reloading,
{
    state.reloading
}

} // verus!
