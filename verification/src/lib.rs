//! Gossip membership core of a serverless LAN chat.
//!
//! Peers self-organize over UDP broadcast/unicast with no coordinator. This
//! library holds the verified core: the wire codec, the peer directory with
//! its consistency and eviction rules, the discovery bootstrap exchange, the
//! heartbeat-driven liveness detector, and the datagram dispatch logic. The
//! sockets, the periodic task loops and the terminal front end live outside
//! the library and drive it with plain values.

pub mod app_state;
pub mod codec;
pub mod commands;
pub mod discovery;
pub mod endpoint;
pub mod heartbeats;
pub mod listener;
pub mod mdns_discovery;
pub mod message;
pub mod peer_list;
pub mod text;
pub mod utils;
