//! The downlink's delta records as the newer protocol spells them: the same
//! bytes as [`crate::proto::server::DeltaRecord`], with "nobody" as `None`
//! rather than a sentinel id, and one more record for a cell sudden death
//! closes.
use vstd::prelude::*;

use crate::proto::codec::{spec_u8, ProtoError, Reader, Writer};
use crate::proto::laws::lemma_record_roundtrip;
use crate::proto::server::{
    record_bytes, spec_record, DeltaRecord as Older, NO_PLAYER,
};
use crate::proto::types::{Direction, PowerupKind, Tile};

use super::{decode_optional_player, encode_optional_player, optional_player_byte};

verus! {

/// The tag of the record for a cell sudden death closed.
pub const WALL_CLOSED: u8 = 0x0D;

/// One change. Ids are player, bomb or power-up ids as each field says.
#[derive(Debug, Clone, Copy, PartialEq, Eq, Structural)]
pub enum DeltaRecord {
    PlayerState { id: u8, alive: bool, moving: bool, x: u8, y: u8, dir: Direction, move_progress: u8 },
    PlayerStats { id: u8, bombs_max: u8, flame: u8, speed: u8, score: u16 },
    BombAdd { id: u16, owner: u8, x: u8, y: u8, fuse: u16 },
    BombRemove { id: u16 },
    Explosion { x: u8, y: u8, up: u8, down: u8, left: u8, right: u8 },
    TileSet { x: u8, y: u8, tile: Tile },
    PowerupAdd { id: u16, x: u8, y: u8, kind: PowerupKind },
    /// `taken_by` is `None` when fire destroyed the power-up.
    PowerupRemove { id: u16, taken_by: Option<u8> },
    /// `killer` is `None` when nobody is credited.
    PlayerDeath { id: u8, killer: Option<u8> },
    FlameAdd { x: u8, y: u8, ticks: u8 },
    FlameRemove { x: u8, y: u8 },
    Timer { ticks_remaining: u32 },
    /// Sudden death closed this cell.
    WallClosed { x: u8, y: u8 },
}

/// A player byte read back: the sentinel is nobody.
pub open spec fn player_of_byte(b: u8) -> Option<u8> {
    if b == NO_PLAYER {
        None
    } else {
        Some(b)
    }
}

/// The older record with the same bytes, for every record but `WallClosed`.
pub open spec fn as_older(r: DeltaRecord) -> Older {
    match r {
        DeltaRecord::PlayerState { id, alive, moving, x, y, dir, move_progress } => Older::PlayerState {
            id,
            alive,
            moving,
            x,
            y,
            dir,
            move_progress,
        },
        DeltaRecord::PlayerStats { id, bombs_max, flame, speed, score } => Older::PlayerStats {
            id,
            bombs_max,
            flame,
            speed,
            score,
        },
        DeltaRecord::BombAdd { id, owner, x, y, fuse } => Older::BombAdd { id, owner, x, y, fuse },
        DeltaRecord::BombRemove { id } => Older::BombRemove { id },
        DeltaRecord::Explosion { x, y, up, down, left, right } => Older::Explosion {
            x,
            y,
            up,
            down,
            left,
            right,
        },
        DeltaRecord::TileSet { x, y, tile } => Older::TileSet { x, y, tile },
        DeltaRecord::PowerupAdd { id, x, y, kind } => Older::PowerupAdd { id, x, y, kind },
        DeltaRecord::PowerupRemove { id, taken_by } => Older::PowerupRemove {
            id,
            taken_by: optional_player_byte(taken_by),
        },
        DeltaRecord::PlayerDeath { id, killer } => Older::PlayerDeath {
            id,
            killer: optional_player_byte(killer),
        },
        DeltaRecord::FlameAdd { x, y, ticks } => Older::FlameAdd { x, y, ticks },
        DeltaRecord::FlameRemove { x, y } => Older::FlameRemove { x, y },
        DeltaRecord::Timer { ticks_remaining } => Older::Timer { ticks_remaining },
        DeltaRecord::WallClosed { x, y } => Older::FlameRemove { x, y },
    }
}

/// The newer record an older one reads as.
pub open spec fn from_older(r: Older) -> DeltaRecord {
    match r {
        Older::PlayerState { id, alive, moving, x, y, dir, move_progress } => DeltaRecord::PlayerState {
            id,
            alive,
            moving,
            x,
            y,
            dir,
            move_progress,
        },
        Older::PlayerStats { id, bombs_max, flame, speed, score } => DeltaRecord::PlayerStats {
            id,
            bombs_max,
            flame,
            speed,
            score,
        },
        Older::BombAdd { id, owner, x, y, fuse } => DeltaRecord::BombAdd { id, owner, x, y, fuse },
        Older::BombRemove { id } => DeltaRecord::BombRemove { id },
        Older::Explosion { x, y, up, down, left, right } => DeltaRecord::Explosion {
            x,
            y,
            up,
            down,
            left,
            right,
        },
        Older::TileSet { x, y, tile } => DeltaRecord::TileSet { x, y, tile },
        Older::PowerupAdd { id, x, y, kind } => DeltaRecord::PowerupAdd { id, x, y, kind },
        Older::PowerupRemove { id, taken_by } => DeltaRecord::PowerupRemove {
            id,
            taken_by: player_of_byte(taken_by),
        },
        Older::PlayerDeath { id, killer } => DeltaRecord::PlayerDeath {
            id,
            killer: player_of_byte(killer),
        },
        Older::FlameAdd { x, y, ticks } => DeltaRecord::FlameAdd { x, y, ticks },
        Older::FlameRemove { x, y } => DeltaRecord::FlameRemove { x, y },
        Older::Timer { ticks_remaining } => DeltaRecord::Timer { ticks_remaining },
    }
}

/// The bytes of a record: its tag, then its fields.
pub open spec fn newer_record_bytes(r: DeltaRecord) -> Seq<u8> {
    match r {
        DeltaRecord::WallClosed { x, y } => seq![WALL_CLOSED, x, y],
        _ => record_bytes(as_older(r)),
    }
}

/// Reading a record at `pos`: a wall-closed record by its tag, any other as
/// the older layout reads it.
pub open spec fn spec_newer_record(buf: Seq<u8>, pos: int) -> Result<(DeltaRecord, int), ProtoError> {
    if 0 <= pos < buf.len() && buf[pos] == WALL_CLOSED {
        match spec_u8(buf, pos + 1) {
            Err(e) => Err(e),
            Ok((x, p)) => match spec_u8(buf, p) {
                Err(e) => Err(e),
                Ok((y, q)) => Ok((DeltaRecord::WallClosed { x, y }, q)),
            },
        }
    } else {
        match spec_record(buf, pos) {
            Err(e) => Err(e),
            Ok((r, p)) => Ok((from_older(r), p)),
        }
    }
}

/// A record whose optional player ids are not the sentinel itself.
pub open spec fn plain_ids(r: DeltaRecord) -> bool {
    match r {
        DeltaRecord::PowerupRemove { taken_by, .. } => taken_by != Some(NO_PLAYER),
        DeltaRecord::PlayerDeath { killer, .. } => killer != Some(NO_PLAYER),
        _ => true,
    }
}

impl DeltaRecord {
    /// The older record with the same bytes.
    fn to_older(&self) -> (o: Older)
        requires
            !(*self is WallClosed),
        ensures
            o == as_older(*self),
    {
        match *self {
            DeltaRecord::PlayerState { id, alive, moving, x, y, dir, move_progress } => Older::PlayerState {
                id,
                alive,
                moving,
                x,
                y,
                dir,
                move_progress,
            },
            DeltaRecord::PlayerStats { id, bombs_max, flame, speed, score } => Older::PlayerStats {
                id,
                bombs_max,
                flame,
                speed,
                score,
            },
            DeltaRecord::BombAdd { id, owner, x, y, fuse } => Older::BombAdd { id, owner, x, y, fuse },
            DeltaRecord::BombRemove { id } => Older::BombRemove { id },
            DeltaRecord::Explosion { x, y, up, down, left, right } => Older::Explosion {
                x,
                y,
                up,
                down,
                left,
                right,
            },
            DeltaRecord::TileSet { x, y, tile } => Older::TileSet { x, y, tile },
            DeltaRecord::PowerupAdd { id, x, y, kind } => Older::PowerupAdd { id, x, y, kind },
            DeltaRecord::PowerupRemove { id, taken_by } => Older::PowerupRemove {
                id,
                taken_by: encode_optional_player(taken_by),
            },
            DeltaRecord::PlayerDeath { id, killer } => Older::PlayerDeath {
                id,
                killer: encode_optional_player(killer),
            },
            DeltaRecord::FlameAdd { x, y, ticks } => Older::FlameAdd { x, y, ticks },
            DeltaRecord::FlameRemove { x, y } => Older::FlameRemove { x, y },
            DeltaRecord::Timer { ticks_remaining } => Older::Timer { ticks_remaining },
            DeltaRecord::WallClosed { x, y } => Older::FlameRemove { x, y },
        }
    }

    /// The newer record an older one reads as.
    fn from_older(o: Older) -> (r: Self)
        ensures
            r == from_older(o),
    {
        match o {
            Older::PlayerState { id, alive, moving, x, y, dir, move_progress } => DeltaRecord::PlayerState {
                id,
                alive,
                moving,
                x,
                y,
                dir,
                move_progress,
            },
            Older::PlayerStats { id, bombs_max, flame, speed, score } => DeltaRecord::PlayerStats {
                id,
                bombs_max,
                flame,
                speed,
                score,
            },
            Older::BombAdd { id, owner, x, y, fuse } => DeltaRecord::BombAdd { id, owner, x, y, fuse },
            Older::BombRemove { id } => DeltaRecord::BombRemove { id },
            Older::Explosion { x, y, up, down, left, right } => DeltaRecord::Explosion {
                x,
                y,
                up,
                down,
                left,
                right,
            },
            Older::TileSet { x, y, tile } => DeltaRecord::TileSet { x, y, tile },
            Older::PowerupAdd { id, x, y, kind } => DeltaRecord::PowerupAdd { id, x, y, kind },
            Older::PowerupRemove { id, taken_by } => DeltaRecord::PowerupRemove {
                id,
                taken_by: decode_optional_player(taken_by),
            },
            Older::PlayerDeath { id, killer } => DeltaRecord::PlayerDeath {
                id,
                killer: decode_optional_player(killer),
            },
            Older::FlameAdd { x, y, ticks } => DeltaRecord::FlameAdd { x, y, ticks },
            Older::FlameRemove { x, y } => DeltaRecord::FlameRemove { x, y },
            Older::Timer { ticks_remaining } => DeltaRecord::Timer { ticks_remaining },
        }
    }

    pub fn encode(&self, w: &mut Writer)
        ensures
            final(w)@ == old(w)@ + newer_record_bytes(*self),
    {
        match *self {
            DeltaRecord::WallClosed { x, y } => {
                w.u8(WALL_CLOSED).u8(x).u8(y);
                assert(w@ =~= old(w)@ + newer_record_bytes(*self));
            },
            _ => {
                let o = self.to_older();
                o.encode(w);
            },
        }
    }

    pub fn decode(r: &mut Reader) -> (res: Result<Self, ProtoError>)
        ensures
            final(r)@.0 == old(r)@.0,
            match spec_newer_record(old(r)@.0, old(r)@.1) {
                Ok((v, p)) => res == Ok::<Self, ProtoError>(v) && final(r)@.1 == p,
                Err(e) => res == Err::<Self, ProtoError>(e),
            },
    {
        if r.peek() == Some(WALL_CLOSED) {
            let _ = r.u8();
            let x = r.u8()?;
            let y = r.u8()?;
            Ok(DeltaRecord::WallClosed { x, y })
        } else {
            let o = Older::decode(r)?;
            Ok(Self::from_older(o))
        }
    }
}

/// A record followed by anything reads back as itself, ending where its
/// bytes end, for every record whose optional ids are not the sentinel.
pub proof fn lemma_newer_record_roundtrip(r: DeltaRecord, tail: Seq<u8>)
    requires
        plain_ids(r),
    ensures
        spec_newer_record(newer_record_bytes(r) + tail, 0) == Ok::<(DeltaRecord, int), ProtoError>(
            (r, newer_record_bytes(r).len() as int),
        ),
{
    let buf = newer_record_bytes(r) + tail;
    match r {
        DeltaRecord::WallClosed { x, y } => {
            assert(buf[0] == WALL_CLOSED);
            assert(buf[1] == x);
            assert(buf[2] == y);
        },
        _ => {
            lemma_record_roundtrip(as_older(r), tail);
            assert(buf[0] == record_bytes(as_older(r))[0]);
            assert(buf[0] != WALL_CLOSED);
        },
    }
}

} // verus!
