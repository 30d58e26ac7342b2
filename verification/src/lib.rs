//! A TCP-level reverse proxy core that routes TLS connections by the Server
//! Name Indication (SNI) of the ClientHello, without terminating TLS.
//!
//! The library holds the verified logic: the TLS record defragmenter, the
//! streaming ClientHello parser, the hostname canonicalizer, the PROXY v1
//! header builder, the alert framing, and the hostname lookup transforms.
//! The surrounding I/O (sockets, timers, signals) lives outside the library.

pub mod alert;
pub mod backend;
pub mod canon;
pub mod hello;
pub mod lookup;
pub mod record;

use vstd::prelude::*;

verus! {

} // verus!
