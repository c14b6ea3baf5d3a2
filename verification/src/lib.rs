//! Verified core of a post-quantum end-to-end encrypted messenger:
//! identity vaults, the hybrid handshake, the double ratchet, the wire
//! frame format and its stream framing, relay routing decisions, storage key
//! layout, the peer-to-peer node's decisions and what the desktop client
//! computes around its commands.

pub mod bytes;
pub mod text;
pub mod primitives;
pub mod ratchet;
pub mod protocol;
pub mod handshake;
pub mod identity;
pub mod mnemonic;
pub mod relay;
pub mod codec;
pub mod storage;
pub mod search;
pub mod client;
pub mod node;
