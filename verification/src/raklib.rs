//! The RakNet transport: wire formats, addresses, reliability and offline handshakes.
pub mod address;
pub mod connection;
pub mod protocol;
pub mod handler;
pub mod ip_table;
pub mod reliability;
pub mod server;
pub mod session;
pub mod table;

use vstd::prelude::*;

verus! {

/// The RakNet protocol version this library speaks.
pub const DEFAULT_PROTOCOL_VERSION: u8 = 11;

/// The number of system addresses a connection handshake carries.
pub const DEFAULT_SYSTEM_ADDRESS_COUNT: usize = 20;

} // verus!
