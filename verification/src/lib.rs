//! Building blocks of networking for game engines: a client-server model with an
//! authoritative server.

pub mod channel;
pub mod client;
pub mod client_server;
pub mod codec;
pub mod convergence;
mod keys;
pub mod layout;
pub mod lloth_core;
pub mod mask;
pub mod nid;
pub mod replication;
pub mod schema;
pub mod server;
pub mod types;
pub mod wire;
pub mod world;
