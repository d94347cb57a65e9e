//! A decoded uplink datagram.
//!
//! ```text
//! byte 0:  player_id            0..=3, or 0xFF to say hello
//! byte 1:  (seq << 4) | action_code
//! ```
use vstd::prelude::*;

use crate::proto::codec::ProtoError;

use super::action::{action_code, action_of, lemma_action_code_roundtrip, spec_action_from_code, Action};
use super::sequence::SEQ_MASK;

verus! {

/// Sent in byte 0 to request a slot. Not a real player id.
pub const HELLO_PLAYER_ID: u8 = 0xFF;

/// The complete hello datagram.
///
/// Byte 1 decodes as seq 15 / [`Action::Hello`], so the format stays uniform.
pub const HELLO_PACKET: [u8; 2] = [0xFF, 0xFF];

/// A decoded uplink datagram.
#[derive(Debug, Clone, Copy, PartialEq, Eq, Structural)]
pub struct ClientPacket {
    pub player_id: u8,
    /// Wrapping 0..=15 counter, incremented by the bot on every send.
    pub seq: u8,
    pub action: Action,
}

/// The two bytes of a packet.
pub open spec fn packet_bytes(p: ClientPacket) -> Seq<u8> {
    seq![p.player_id, ((p.seq << 4u8) | action_code(p.action)) as u8]
}

pub open spec fn spec_decode_packet(buf: Seq<u8>) -> Result<ClientPacket, ProtoError> {
    if buf.len() < 2 {
        Err(ProtoError::Truncated { at: buf.len() as usize, need: (2 - buf.len()) as usize })
    } else {
        match spec_action_from_code(buf[1] & 0x0Fu8) {
            Ok(action) => Ok(ClientPacket { player_id: buf[0], seq: buf[1] >> 4u8, action }),
            Err(e) => Err(e),
        }
    }
}

pub open spec fn spec_is_hello(p: ClientPacket) -> bool {
    p.player_id == HELLO_PLAYER_ID || p.action == Action::Hello
}

proof fn lemma_nibbles(seq: u8, code: u8)
    requires
        seq < 16,
        code < 16,
    ensures
        ((seq << 4u8) | code) >> 4u8 == seq,
        ((seq << 4u8) | code) & 0x0Fu8 == code,
{
    assert(((seq << 4u8) | code) >> 4u8 == seq) by (bit_vector)
        requires
            seq < 16,
            code < 16,
    ;
    assert(((seq << 4u8) | code) & 0x0Fu8 == code) by (bit_vector)
        requires
            seq < 16,
            code < 16,
    ;
}

/// Decoding an encoded packet gives the packet back, whenever its sequence
/// number fits the four bits it is sent in.
pub proof fn lemma_packet_roundtrip(p: ClientPacket)
    requires
        p.seq < 16,
    ensures
        spec_decode_packet(packet_bytes(p)) == Ok::<ClientPacket, ProtoError>(p),
{
    lemma_action_code_roundtrip(p.action);
    lemma_nibbles(p.seq, action_code(p.action));
}

impl ClientPacket {
    pub const LEN: usize = 2;

    pub fn new(player_id: u8, seq: u8, action: Action) -> (p: Self)
        ensures
            p.player_id == player_id,
            p.seq == seq % 16,
            p.action == action,
    {
        let s = seq & SEQ_MASK;
        assert(s == seq % 16) by (bit_vector)
            requires
                s == seq & 0x0Fu8,
        ;
        Self { player_id, seq: s, action }
    }

    pub fn hello() -> (p: Self)
        ensures
            p == (ClientPacket { player_id: HELLO_PLAYER_ID, seq: 15, action: Action::Hello }),
    {
        Self { player_id: HELLO_PLAYER_ID, seq: SEQ_MASK, action: Action::Hello }
    }

    pub fn encode(&self) -> (b: [u8; 2])
        ensures
            b@ == packet_bytes(*self),
    {
        let out = [self.player_id, (self.seq << 4u8) | self.action.code()];
        assert(out@ =~= packet_bytes(*self));
        out
    }

    pub fn decode(buf: &[u8]) -> (res: Result<Self, ProtoError>)
        ensures
            res == spec_decode_packet(buf@),
    {
        if buf.len() < Self::LEN {
            return Err(ProtoError::Truncated { at: buf.len(), need: Self::LEN - buf.len() });
        }
        let action = Action::from_code(buf[1] & 0x0F)?;
        Ok(ClientPacket { player_id: buf[0], seq: buf[1] >> 4u8, action })
    }

    pub fn is_hello(&self) -> (b: bool)
        ensures
            b == spec_is_hello(*self),
    {
        self.player_id == HELLO_PLAYER_ID || self.action == Action::Hello
    }

    /// The claimed player, or `None` for a hello.
    ///
    /// A claim is exactly that: the server still has to check it against the
    /// address the datagram arrived from before acting on it.
    pub fn claimed_player(&self) -> (p: Option<u8>)
        ensures
            p == (if spec_is_hello(*self) {
                None
            } else {
                Some(self.player_id)
            }),
    {
        if self.is_hello() {
            None
        } else {
            Some(self.player_id)
        }
    }
}

} // verus!
