//! The wire protocol for the Bomberman bot arena.
//!
//! The client-to-server packet is exactly two bytes; the downlink pays for
//! that by interleaving complete keyframes with deltas that name their base.
use vstd::prelude::*;

pub mod client;
pub mod codec;
pub mod frame_type;
pub mod laws;
pub mod record_type;
pub mod server;
pub mod types;

pub use client::{seq_is_newer, Action, ClientPacket, HELLO_PACKET, HELLO_PLAYER_ID};
pub use codec::{ProtoError, Reader, Writer};
pub use server::{
    Assigned, BombSnapshot, Delta, DeltaRecord, EndReason, FlameCell, Keyframe, LobbyState,
    LobbyStatus, MatchEnd, MatchInit, PlayerResult, PlayerSnapshot, PowerupSnapshot, ServerFrame,
    MAX_DATAGRAM, NO_PLAYER, PROTOCOL_VERSION,
};
pub use types::{Direction, PowerupKind, Rules, Tile, TileGrid};

verus! {

/// Default UDP port bots send their two bytes to.
pub const DEFAULT_UDP_PORT: u16 = 47800;

/// Default HTTP/WebSocket port for the visualizer and moderation UI.
pub const DEFAULT_WEB_PORT: u16 = 8080;

/// Simulation rate. Fixed, not negotiated: determinism depends on it.
pub const TICK_RATE: u8 = 60;

/// Hard ceiling on concurrent players, set by the 4-bit slot mask in
/// `LOBBY_STATUS` and by the number of corner spawns.
pub const MAX_PLAYERS: usize = 4;

} // verus!
