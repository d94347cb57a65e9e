//! The newer spelling of the uplink: the same two bytes, an explicit idle
//! heartbeat, and a hello that may carry the bot's name.
//!
//! It shares the little-endian cursors, the error type and the downlink
//! constants with [`crate::proto`].
use vstd::prelude::*;

pub mod action;
pub mod grid;
pub mod hello;
pub mod packet;
pub mod record;
pub mod sequence;

pub use crate::proto::codec::{ProtoError, Reader, Writer};
pub use crate::proto::server::{FlameCell, MAX_DATAGRAM, NO_PLAYER, PROTOCOL_VERSION};
pub use crate::proto::{DEFAULT_UDP_PORT, DEFAULT_WEB_PORT, MAX_PLAYERS, TICK_RATE};
pub use action::Action;
pub use hello::Hello;
pub use packet::{ClientPacket, HELLO_PACKET, HELLO_PLAYER_ID};
pub use sequence::{seq_is_newer, SEQ_MASK, SEQ_SPACE};

verus! {

/// A player id on the wire, with nobody spelled as `NO_PLAYER`.
pub open spec fn optional_player_byte(id: Option<u8>) -> u8 {
    match id {
        Some(p) => p,
        None => NO_PLAYER,
    }
}

/// `None` is written as `NO_PLAYER`.
pub fn encode_optional_player(id: Option<u8>) -> (b: u8)
    ensures
        b == optional_player_byte(id),
{
    match id {
        Some(p) => p,
        None => NO_PLAYER,
    }
}

/// `NO_PLAYER` reads back as nobody; any other byte is that player.
pub fn decode_optional_player(raw: u8) -> (id: Option<u8>)
    ensures
        id == if raw == NO_PLAYER {
            None
        } else {
            Some(raw)
        },
{
    if raw != NO_PLAYER {
        Some(raw)
    } else {
        None
    }
}

/// Reading back what was written gives the same player, or nobody, for
/// every id but the sentinel itself.
pub proof fn lemma_optional_player_round_trip(id: Option<u8>)
    requires
        id != Some(NO_PLAYER),
    ensures
        (if optional_player_byte(id) == NO_PLAYER {
            None
        } else {
            Some(optional_player_byte(id))
        }) == id,
{
}

} // verus!
