//! Keypath-addressed publish/subscribe state: a subscription tree keyed by
//! path segments, the tracker that derives broker patterns from it, and the
//! protocol decisions of the websocket gateway and the REST front end.

use vstd::prelude::*;

pub mod dash;
pub mod gateway;
pub mod json;
pub mod keypath;
pub mod rest;
pub mod subscription;
pub mod tracker;

verus! {

} // verus!
