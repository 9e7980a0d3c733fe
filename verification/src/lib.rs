//! Federation registry: a directory of peer nodes that self-register with a
//! challenge/response scheme binding a network host to an Ed25519 public key,
//! prove liveness with signed heartbeats, and are periodically probed for
//! health and geography.

use vstd::prelude::*;

pub mod crypto;
pub mod json;
pub mod registry;

verus! {

} // verus!
