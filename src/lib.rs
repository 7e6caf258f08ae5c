//! Control plane of a function hosting platform: function registry, users and
//! tokens, sandbox argument construction, subdomain routing and deployment
//! bookkeeping.
use vstd::prelude::*;

pub mod func;
pub mod index;
pub mod user;
pub mod sandbox;
pub mod proxy;
pub mod deploy;
pub mod service;

verus! {

/// Marker field type that keeps a struct from being built by a literal outside this crate.
#[derive(Debug, Clone, Copy)]
pub struct NonExhaustiveMarker(());

/// The marker value.
pub fn dnem() -> (r: NonExhaustiveMarker) {
    NonExhaustiveMarker(())
}

} // verus!
