//! Peer membership and gossip for a small, fully connected network.
//!
//! Nodes discover each other over UDP broadcast, join through an
//! authenticated handshake, and disseminate an append-only, causally
//! ordered log of opaque application events ("transitions") by epidemic
//! flooding.  The crate holds the protocol logic itself: the wire codec,
//! the handshake resolver, the outbound multiplexer, the dissemination
//! and deduplication rules, and the discovery probe logic.  Socket
//! handling is left to the embedding program, which feeds bytes and
//! events into the state machines defined here.

pub mod types;
pub mod bytes_codec;
pub mod transition;
pub mod wire;
pub mod store;
pub mod spread;
pub mod resolver;
pub mod engine;
pub mod discover;
pub mod track;

pub use types::{Addr, PeerId, NetworkKey, PeerPresence, SpreadTo};
pub use transition::{Transition, TransitionKey};
pub use wire::Packet;
pub use store::Store;
pub use spread::Spread;
pub use resolver::ResolvePeers;
pub use discover::{Beacon, Discover};
pub use engine::{Gossip, GossipConf};
pub use track::Track;
