//! Declarative network-interface configuration management: a document model
//! for interface settings, a last-wins merge engine, validation of proposed
//! edits, a textual codec for the on-disk document schema, commit planning,
//! and the request/response values exchanged with the privileged helper.

pub mod text;
pub mod model;
pub mod errors;
pub mod merge;
pub mod validate;
pub mod codec;
pub mod ops;
pub mod task;
pub mod laws;
pub mod roundtrip;
pub mod admin;

use vstd::prelude::*;

verus! {

} // verus!
