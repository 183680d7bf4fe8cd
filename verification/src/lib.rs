//! Node-side core of a source-routed, fragment-based message protocol for a
//! multi-hop network of clients, drones and servers.

pub mod delivery;
pub mod error;
pub mod flood;
pub mod fragmenter;
pub mod node;
pub mod packet;
pub mod router;
pub mod topology;
pub mod transport;
