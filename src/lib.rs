//! Shared grid positions: a wire codec, an authoritative registry of peer
//! positions, the acceptor that mints peer identities, and the per-connection
//! worker that pumps records between a peer and the registry.
pub mod codec;
pub mod registry;
pub mod acceptor;
pub mod connection;
