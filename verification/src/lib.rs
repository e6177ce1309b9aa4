//! Entity replication between an authoritative server and its clients.
//!
//! The server owns the simulation. [`connection::ConnectionManager`] maps each network endpoint
//! to the entity that it plays, [`server::HandleClientPackets`] takes in what the clients send,
//! and [`login::SendWorldToNewPlayers`] sends the world to the clients that join. A client
//! turns what the server says into entities of its own with [`client::HandleServerPackets`] and
//! talks back through a [`server_connection::ServerConnection`]. Both ends share the messages of
//! [`wire`], and both look entities up in an [`table::IdentityTable`], which never hands one
//! entity to two keys and never resolves a key to an entity that has died.

pub mod client;
pub mod connection;
pub mod consistency;
pub mod dispatch;
pub mod login;
pub mod server;
pub mod server_connection;
pub mod table;
pub mod wire;
pub mod world;
