//! The client -> server uplink: exactly two bytes, forever.
//!
//! ```text
//! byte 0: player_id   0..=3, or 0xFF to say hello
//! byte 1: (seq << 4) | action_code
//! ```
//!
//! Two bytes is the whole budget, which rules out acknowledgements, tokens and
//! resync requests. The one piece of spare room is the high nibble of byte 1,
//! spent on a wrapping sequence counter so the server can drop duplicated and
//! reordered datagrams.
use vstd::prelude::*;

use super::codec::ProtoError;
use super::types::Direction;

verus! {

/// Sent in byte 0 to request a slot. Not a real player id.
pub const HELLO_PLAYER_ID: u8 = 0xFF;

/// The complete hello datagram: `[0xFF, 0xFF]`.
///
/// Byte 1 decodes as seq 15 / action `Hello`, so the format stays uniform.
pub const HELLO_PACKET: [u8; 2] = [0xFF, 0xFF];

/// What a player wants to do on a tick.
#[derive(Debug, Clone, Copy, PartialEq, Eq, Hash, Structural)]
pub enum Action {
    Noop,
    Up,
    Down,
    Left,
    Right,
    Bomb,
    UpBomb,
    DownBomb,
    LeftBomb,
    RightBomb,
    /// Request a slot, or ask for `MATCH_INIT` to be re-sent.
    Hello,
}

pub open spec fn action_code(a: Action) -> u8 {
    match a {
        Action::Noop => 0,
        Action::Up => 1,
        Action::Down => 2,
        Action::Left => 3,
        Action::Right => 4,
        Action::Bomb => 5,
        Action::UpBomb => 6,
        Action::DownBomb => 7,
        Action::LeftBomb => 8,
        Action::RightBomb => 9,
        Action::Hello => 15,
    }
}

/// The action a code names, if any. Codes 10..=14 are reserved.
pub open spec fn action_of(code: u8) -> Option<Action> {
    if code == 0 {
        Some(Action::Noop)
    } else if code == 1 {
        Some(Action::Up)
    } else if code == 2 {
        Some(Action::Down)
    } else if code == 3 {
        Some(Action::Left)
    } else if code == 4 {
        Some(Action::Right)
    } else if code == 5 {
        Some(Action::Bomb)
    } else if code == 6 {
        Some(Action::UpBomb)
    } else if code == 7 {
        Some(Action::DownBomb)
    } else if code == 8 {
        Some(Action::LeftBomb)
    } else if code == 9 {
        Some(Action::RightBomb)
    } else if code == 15 {
        Some(Action::Hello)
    } else {
        None
    }
}

pub open spec fn spec_action_from_code(code: u8) -> Result<Action, ProtoError> {
    match action_of(code) {
        Some(a) => Ok(a),
        None => Err(ProtoError::InvalidValue { field: "action", value: code as u32 }),
    }
}

pub open spec fn spec_movement(a: Action) -> Option<Direction> {
    match a {
        Action::Up | Action::UpBomb => Some(Direction::Up),
        Action::Down | Action::DownBomb => Some(Direction::Down),
        Action::Left | Action::LeftBomb => Some(Direction::Left),
        Action::Right | Action::RightBomb => Some(Direction::Right),
        _ => None,
    }
}

pub open spec fn spec_places_bomb(a: Action) -> bool {
    match a {
        Action::Bomb | Action::UpBomb | Action::DownBomb | Action::LeftBomb | Action::RightBomb => true,
        _ => false,
    }
}

/// Every code names at most one action, and every action's code names it.
pub proof fn lemma_action_code_roundtrip(a: Action)
    ensures
        action_of(action_code(a)) == Some(a),
        action_code(a) < 16,
{
}

impl Action {
    pub fn from_code(code: u8) -> (res: Result<Action, ProtoError>)
        ensures
            res == spec_action_from_code(code),
    {
        match code {
            0 => Ok(Action::Noop),
            1 => Ok(Action::Up),
            2 => Ok(Action::Down),
            3 => Ok(Action::Left),
            4 => Ok(Action::Right),
            5 => Ok(Action::Bomb),
            6 => Ok(Action::UpBomb),
            7 => Ok(Action::DownBomb),
            8 => Ok(Action::LeftBomb),
            9 => Ok(Action::RightBomb),
            15 => Ok(Action::Hello),
            other => Err(ProtoError::InvalidValue { field: "action", value: other as u32 }),
        }
    }

    pub fn code(self) -> (c: u8)
        ensures
            c == action_code(self),
    {
        match self {
            Action::Noop => 0,
            Action::Up => 1,
            Action::Down => 2,
            Action::Left => 3,
            Action::Right => 4,
            Action::Bomb => 5,
            Action::UpBomb => 6,
            Action::DownBomb => 7,
            Action::LeftBomb => 8,
            Action::RightBomb => 9,
            Action::Hello => 15,
        }
    }

    /// The movement component, if any.
    pub fn movement(self) -> (d: Option<Direction>)
        ensures
            d == spec_movement(self),
    {
        match self {
            Action::Up | Action::UpBomb => Some(Direction::Up),
            Action::Down | Action::DownBomb => Some(Direction::Down),
            Action::Left | Action::LeftBomb => Some(Direction::Left),
            Action::Right | Action::RightBomb => Some(Direction::Right),
            _ => None,
        }
    }

    /// Whether this action also drops a bomb on the player's current cell.
    pub fn places_bomb(self) -> (b: bool)
        ensures
            b == spec_places_bomb(self),
    {
        match self {
            Action::Bomb | Action::UpBomb | Action::DownBomb | Action::LeftBomb
            | Action::RightBomb => true,
            _ => false,
        }
    }

    /// Combine a direction with an optional bomb drop into a single action.
    pub fn moving(dir: Direction, bomb: bool) -> (a: Action)
        ensures
            spec_movement(a) == Some(dir),
            spec_places_bomb(a) == bomb,
    {
        match (dir, bomb) {
            (Direction::Up, false) => Action::Up,
            (Direction::Down, false) => Action::Down,
            (Direction::Left, false) => Action::Left,
            (Direction::Right, false) => Action::Right,
            (Direction::Up, true) => Action::UpBomb,
            (Direction::Down, true) => Action::DownBomb,
            (Direction::Left, true) => Action::LeftBomb,
            (Direction::Right, true) => Action::RightBomb,
        }
    }
}

/// A decoded uplink datagram.
#[derive(Debug, Clone, Copy, PartialEq, Eq, Structural)]
pub struct ClientPacket {
    pub player_id: u8,
    /// Wrapping 0..=15 counter, incremented by the bot on every send.
    pub seq: u8,
    pub action: Action,
}

/// The two bytes of a packet.
pub open spec fn packet_bytes(p: ClientPacket) -> Seq<u8> {
    seq![p.player_id, ((p.seq << 4u8) | action_code(p.action)) as u8]
}

pub open spec fn spec_decode_packet(buf: Seq<u8>) -> Result<ClientPacket, ProtoError> {
    if buf.len() < 2 {
        Err(ProtoError::Truncated { at: buf.len() as usize, need: (2 - buf.len()) as usize })
    } else {
        match spec_action_from_code(buf[1] & 0x0Fu8) {
            Ok(action) => Ok(ClientPacket { player_id: buf[0], seq: buf[1] >> 4u8, action }),
            Err(e) => Err(e),
        }
    }
}

pub open spec fn spec_is_hello(p: ClientPacket) -> bool {
    p.player_id == HELLO_PLAYER_ID || p.action == Action::Hello
}

proof fn lemma_nibbles(seq: u8, code: u8)
    requires
        seq < 16,
        code < 16,
    ensures
        ((seq << 4u8) | code) >> 4u8 == seq,
        ((seq << 4u8) | code) & 0x0Fu8 == code,
{
    assert(((seq << 4u8) | code) >> 4u8 == seq) by (bit_vector)
        requires
            seq < 16,
            code < 16,
    ;
    assert(((seq << 4u8) | code) & 0x0Fu8 == code) by (bit_vector)
        requires
            seq < 16,
            code < 16,
    ;
}

/// Decoding an encoded packet gives the packet back, whenever its sequence
/// number fits the four bits it is sent in.
pub proof fn lemma_packet_roundtrip(p: ClientPacket)
    requires
        p.seq < 16,
    ensures
        spec_decode_packet(packet_bytes(p)) == Ok::<ClientPacket, ProtoError>(p),
{
    lemma_action_code_roundtrip(p.action);
    lemma_nibbles(p.seq, action_code(p.action));
}

impl ClientPacket {
    pub const LEN: usize = 2;

    pub fn new(player_id: u8, seq: u8, action: Action) -> (p: Self)
        ensures
            p.player_id == player_id,
            p.seq == seq % 16,
            p.action == action,
    {
        let s = seq & 0x0F;
        assert(s == seq % 16) by (bit_vector)
            requires
                s == seq & 0x0F,
        ;
        Self { player_id, seq: s, action }
    }

    pub fn hello() -> (p: Self)
        ensures
            p == (ClientPacket { player_id: HELLO_PLAYER_ID, seq: 15, action: Action::Hello }),
    {
        Self::new(HELLO_PLAYER_ID, 0x0F, Action::Hello)
    }

    pub fn encode(&self) -> (b: [u8; 2])
        ensures
            b@ == packet_bytes(*self),
    {
        let out = [self.player_id, (self.seq << 4u8) | self.action.code()];
        assert(out@ =~= packet_bytes(*self));
        out
    }

    pub fn decode(buf: &[u8]) -> (res: Result<Self, ProtoError>)
        ensures
            res == spec_decode_packet(buf@),
    {
        if buf.len() < Self::LEN {
            return Err(ProtoError::Truncated { at: buf.len(), need: Self::LEN - buf.len() });
        }
        let action = Action::from_code(buf[1] & 0x0F)?;
        Ok(ClientPacket { player_id: buf[0], seq: buf[1] >> 4u8, action })
    }

    pub fn is_hello(&self) -> (b: bool)
        ensures
            b == spec_is_hello(*self),
    {
        self.player_id == HELLO_PLAYER_ID || self.action == Action::Hello
    }
}

/// How far `seq` is ahead of `previous` in the wrapping 4-bit space.
pub open spec fn seq_distance(seq: u8, previous: u8) -> int {
    (seq as int - previous as int) % 16
}

/// Half the 16-value space counts as "ahead".
pub open spec fn spec_seq_is_newer(seq: u8, previous: u8) -> bool {
    0 < seq_distance(seq, previous) < 8
}

/// Is `seq` newer than `previous` in wrapping 4-bit space?
///
/// A bot sending one packet per tick wraps every 16 ticks, so anything more
/// than 8 ticks stale is indistinguishable from fresh -- which is fine, since
/// the server only ever cares about the newest packet inside the current tick.
pub fn seq_is_newer(seq: u8, previous: u8) -> (b: bool)
    ensures
        b == spec_seq_is_newer(seq, previous),
{
    let wrapped = seq.wrapping_sub(previous);
    let diff = wrapped & 0x0F;
    assert(diff == wrapped % 16) by (bit_vector)
        requires
            diff == wrapped & 0x0F,
    ;
    assert(wrapped as int == seq as int - previous as int || wrapped as int == seq as int
        - previous as int + 256);
    diff != 0 && diff < 8
}

/// A packet is never newer than itself.
pub proof fn lemma_seq_irreflexive(seq: u8)
    ensures
        !spec_seq_is_newer(seq, seq),
{
}

/// Of two distinct packets at most one is the newer: the relation is
/// asymmetric, so a duplicate or a reordered packet is never taken over the
/// one it trails.
pub proof fn lemma_seq_asymmetric(a: u8, b: u8)
    ensures
        spec_seq_is_newer(a, b) ==> !spec_seq_is_newer(b, a),
{
    let d = (a as int - b as int) % 16;
    let e = (b as int - a as int) % 16;
    assert(d == 0 ==> e == 0);
    assert(d != 0 ==> d + e == 16);
}

/// A packet one step ahead, wrapping at 16, is always newer.
pub proof fn lemma_seq_successor_is_newer(seq: u8)
    requires
        seq < 16,
    ensures
        spec_seq_is_newer(((seq + 1) % 16) as u8, seq),
{
}

} // verus!
