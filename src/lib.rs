//! A peer-addressed protocol over TCP: the wire codec for its frames, the
//! admission controller that bounds open connections, and the state machine
//! of one connection.
use vstd::prelude::*;

pub mod error;
pub mod handler;
pub mod ipv4;
pub mod registry;
pub mod reqres;
pub mod server;
pub mod text;
pub mod uri;
pub mod verbs;

verus! {

} // verus!
