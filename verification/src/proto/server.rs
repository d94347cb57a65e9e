//! The server -> client downlink.
//!
//! Every frame starts with `[frame_type: u8][tick: u32 LE]`.
//!
//! The downlink is where the two-byte uplink is paid for. Because a client can
//! never acknowledge anything, the server cannot delta against a last-acked
//! tick. Instead it interleaves complete keyframes with deltas that name the
//! tick they build on; a client that misses a datagram discards deltas whose
//! base it does not hold and waits for the next keyframe.
use vstd::prelude::*;

use super::frame_type;
use super::record_type;
use super::codec::{le16, le32, le64, spec_u16, spec_u32, spec_u64, spec_u8, ProtoError, Reader, Writer};
use super::types::{
    direction_code, packed_cells, powerup_code, rules_bytes, spec_direction_from_code, spec_grid,
    spec_packed_len, spec_powerup_from_code, spec_rules, spec_tile_from_code, tile_code, Direction,
    GridView, PowerupKind, Rules, Tile, TileGrid,
};

verus! {

pub const PROTOCOL_VERSION: u8 = 1;

/// Conservative payload ceiling: stay well under the smallest path MTU so
/// frames are never fragmented or silently dropped.
pub const MAX_DATAGRAM: usize = 1200;

/// Sentinel for "no winner" in `MatchEnd::winner` and "nobody" in kill credit.
pub const NO_PLAYER: u8 = 0xFF;

/// Where the match currently sits in the lobby state machine.
#[derive(Debug, Clone, Copy, PartialEq, Eq, Structural)]
pub enum LobbyState {
    /// Accepting hellos.
    Open,
    /// Roster frozen by the moderator; no new bots admitted.
    Locked,
    /// Countdown running, match about to start.
    Countdown,
    Running,
    MatchOver,
}

pub open spec fn lobby_state_code(s: LobbyState) -> u8 {
    match s {
        LobbyState::Open => 0,
        LobbyState::Locked => 1,
        LobbyState::Countdown => 2,
        LobbyState::Running => 3,
        LobbyState::MatchOver => 4,
    }
}

pub open spec fn spec_lobby_state_from_code(code: u8) -> Result<LobbyState, ProtoError> {
    if code == 0 {
        Ok(LobbyState::Open)
    } else if code == 1 {
        Ok(LobbyState::Locked)
    } else if code == 2 {
        Ok(LobbyState::Countdown)
    } else if code == 3 {
        Ok(LobbyState::Running)
    } else if code == 4 {
        Ok(LobbyState::MatchOver)
    } else {
        Err(ProtoError::InvalidValue { field: "lobby_state", value: code as u32 })
    }
}

impl LobbyState {
    pub fn from_code(code: u8) -> (res: Result<Self, ProtoError>)
        ensures
            res == spec_lobby_state_from_code(code),
    {
        match code {
            0 => Ok(LobbyState::Open),
            1 => Ok(LobbyState::Locked),
            2 => Ok(LobbyState::Countdown),
            3 => Ok(LobbyState::Running),
            4 => Ok(LobbyState::MatchOver),
            other => Err(ProtoError::InvalidValue { field: "lobby_state", value: other as u32 }),
        }
    }

    pub fn code(self) -> (c: u8)
        ensures
            c == lobby_state_code(self),
    {
        match self {
            LobbyState::Open => 0,
            LobbyState::Locked => 1,
            LobbyState::Countdown => 2,
            LobbyState::Running => 3,
            LobbyState::MatchOver => 4,
        }
    }
}

/// Why a match ended.
#[derive(Debug, Clone, Copy, PartialEq, Eq, Structural)]
pub enum EndReason {
    LastStanding,
    Timeout,
    /// Moderator reset an in-progress match.
    Aborted,
}

pub open spec fn end_reason_code(r: EndReason) -> u8 {
    match r {
        EndReason::LastStanding => 0,
        EndReason::Timeout => 1,
        EndReason::Aborted => 2,
    }
}

pub open spec fn spec_end_reason_from_code(code: u8) -> Result<EndReason, ProtoError> {
    if code == 0 {
        Ok(EndReason::LastStanding)
    } else if code == 1 {
        Ok(EndReason::Timeout)
    } else if code == 2 {
        Ok(EndReason::Aborted)
    } else {
        Err(ProtoError::InvalidValue { field: "end_reason", value: code as u32 })
    }
}

impl EndReason {
    pub fn from_code(code: u8) -> (res: Result<Self, ProtoError>)
        ensures
            res == spec_end_reason_from_code(code),
    {
        match code {
            0 => Ok(EndReason::LastStanding),
            1 => Ok(EndReason::Timeout),
            2 => Ok(EndReason::Aborted),
            other => Err(ProtoError::InvalidValue { field: "end_reason", value: other as u32 }),
        }
    }

    pub fn code(self) -> (c: u8)
        ensures
            c == end_reason_code(self),
    {
        match self {
            EndReason::LastStanding => 0,
            EndReason::Timeout => 1,
            EndReason::Aborted => 2,
        }
    }
}

// ---------------------------------------------------------------------------
// Entity snapshots, shared by keyframes and deltas.
// ---------------------------------------------------------------------------

#[derive(Debug, Clone, Copy, PartialEq, Eq, Structural)]
pub struct PlayerSnapshot {
    pub id: u8,
    pub alive: bool,
    /// True while mid-step between two cells.
    pub moving: bool,
    /// Cell the player occupies. While moving, the cell being moved into.
    pub x: u8,
    pub y: u8,
    pub dir: Direction,
    /// Ticks elapsed in the current step, 0 when standing still.
    pub move_progress: u8,
    pub bombs_max: u8,
    pub flame: u8,
    pub speed: u8,
    pub score: u16,
}

#[derive(Debug, Clone, Copy, PartialEq, Eq, Structural)]
pub struct BombSnapshot {
    pub id: u16,
    pub owner: u8,
    pub x: u8,
    pub y: u8,
    pub fuse_remaining: u16,
}

/// One lethal cell of an active explosion.
#[derive(Debug, Clone, Copy, PartialEq, Eq, Structural)]
pub struct FlameCell {
    pub x: u8,
    pub y: u8,
    pub ticks_remaining: u8,
}

#[derive(Debug, Clone, Copy, PartialEq, Eq, Structural)]
pub struct PowerupSnapshot {
    pub id: u16,
    pub x: u8,
    pub y: u8,
    pub kind: PowerupKind,
}

#[derive(Debug, Clone, Copy, PartialEq, Eq, Structural)]
pub struct PlayerResult {
    pub id: u8,
    /// 1 = winner. Tied players share a placement.
    pub placement: u8,
    pub score: u16,
}

// ---------------------------------------------------------------------------
// Frames
// ---------------------------------------------------------------------------

#[derive(Debug, Clone, Copy, PartialEq, Eq, Structural)]
pub struct Assigned {
    pub tick: u32,
    pub protocol_version: u8,
    pub player_id: u8,
    pub tick_rate: u8,
    pub max_players: u8,
}

#[derive(Debug, Clone, Copy, PartialEq, Eq, Structural)]
pub struct LobbyStatus {
    pub tick: u32,
    pub state: LobbyState,
    pub players_connected: u8,
    pub max_players: u8,
    /// Bit `i` set means slot `i` is taken.
    pub slot_mask: u8,
    /// Ticks left in the start countdown; 0 outside `Countdown`.
    pub countdown_ticks: u16,
}

#[derive(Debug, Clone, PartialEq, Eq)]
pub struct MatchInit {
    pub tick: u32,
    pub protocol_version: u8,
    pub match_id: u32,
    /// The RNG seed the whole match derives from.
    pub seed: u64,
    pub your_player_id: u8,
    pub grid: TileGrid,
    /// Indexed by player id.
    pub spawns: Vec<(u8, u8)>,
    pub rules: Rules,
}

#[derive(Debug, Clone, PartialEq, Eq)]
pub struct Keyframe {
    pub tick: u32,
    /// The full grid rather than a patch list: bounded, and simpler to apply.
    pub grid: TileGrid,
    pub players: Vec<PlayerSnapshot>,
    pub bombs: Vec<BombSnapshot>,
    pub flames: Vec<FlameCell>,
    pub powerups: Vec<PowerupSnapshot>,
    pub ticks_remaining: u32,
}

#[derive(Debug, Clone, PartialEq, Eq)]
pub struct Delta {
    pub tick: u32,
    /// The tick this delta is relative to. Discard the frame unless you hold
    /// state at exactly this tick.
    pub base_tick: u32,
    pub records: Vec<DeltaRecord>,
}

#[derive(Debug, Clone, PartialEq, Eq)]
pub struct MatchEnd {
    pub tick: u32,
    pub reason: EndReason,
    /// `NO_PLAYER` on a draw.
    pub winner: u8,
    pub results: Vec<PlayerResult>,
}



#[derive(Debug, Clone, Copy, PartialEq, Eq, Structural)]
pub enum DeltaRecord {
    /// Position or facing changed.
    PlayerState { id: u8, alive: bool, moving: bool, x: u8, y: u8, dir: Direction, move_progress: u8 },
    /// Inventory or score changed.
    PlayerStats { id: u8, bombs_max: u8, flame: u8, speed: u8, score: u16 },
    BombAdd { id: u16, owner: u8, x: u8, y: u8, fuse: u16 },
    BombRemove { id: u16 },
    /// Cosmetic: the blast shape, so a client can animate it in one go.
    Explosion { x: u8, y: u8, up: u8, down: u8, left: u8, right: u8 },
    TileSet { x: u8, y: u8, tile: Tile },
    PowerupAdd { id: u16, x: u8, y: u8, kind: PowerupKind },
    PowerupRemove { id: u16, taken_by: u8 },
    PlayerDeath {
        id: u8,
        /// `NO_PLAYER` when nobody gets credit.
        killer: u8,
    },
    FlameAdd { x: u8, y: u8, ticks: u8 },
    FlameRemove { x: u8, y: u8 },
    Timer { ticks_remaining: u32 },
}

#[derive(Debug, Clone, PartialEq, Eq)]
pub enum ServerFrame {
    Assigned(Assigned),
    LobbyStatus(LobbyStatus),
    MatchInit(MatchInit),
    Keyframe(Keyframe),
    Delta(Delta),
    MatchEnd(MatchEnd),
}

// ---------------------------------------------------------------------------
// Frames as mathematical values
// ---------------------------------------------------------------------------

#[verifier::ext_equal]
pub struct MatchInitView {
    pub tick: u32,
    pub protocol_version: u8,
    pub match_id: u32,
    pub seed: u64,
    pub your_player_id: u8,
    pub grid: GridView,
    pub spawns: Seq<(u8, u8)>,
    pub rules: Rules,
}

#[verifier::ext_equal]
pub struct KeyframeView {
    pub tick: u32,
    pub grid: GridView,
    pub players: Seq<PlayerSnapshot>,
    pub bombs: Seq<BombSnapshot>,
    pub flames: Seq<FlameCell>,
    pub powerups: Seq<PowerupSnapshot>,
    pub ticks_remaining: u32,
}

#[verifier::ext_equal]
pub struct DeltaView {
    pub tick: u32,
    pub base_tick: u32,
    pub records: Seq<DeltaRecord>,
}

#[verifier::ext_equal]
pub struct MatchEndView {
    pub tick: u32,
    pub reason: EndReason,
    pub winner: u8,
    pub results: Seq<PlayerResult>,
}

#[verifier::ext_equal]
pub enum FrameView {
    Assigned(Assigned),
    LobbyStatus(LobbyStatus),
    MatchInit(MatchInitView),
    Keyframe(KeyframeView),
    Delta(DeltaView),
    MatchEnd(MatchEndView),
}

impl View for MatchInit {
    type V = MatchInitView;

    open spec fn view(&self) -> MatchInitView {
        MatchInitView {
            tick: self.tick,
            protocol_version: self.protocol_version,
            match_id: self.match_id,
            seed: self.seed,
            your_player_id: self.your_player_id,
            grid: self.grid@,
            spawns: self.spawns@,
            rules: self.rules,
        }
    }
}

impl View for Keyframe {
    type V = KeyframeView;

    open spec fn view(&self) -> KeyframeView {
        KeyframeView {
            tick: self.tick,
            grid: self.grid@,
            players: self.players@,
            bombs: self.bombs@,
            flames: self.flames@,
            powerups: self.powerups@,
            ticks_remaining: self.ticks_remaining,
        }
    }
}

impl View for Delta {
    type V = DeltaView;

    open spec fn view(&self) -> DeltaView {
        DeltaView { tick: self.tick, base_tick: self.base_tick, records: self.records@ }
    }
}

impl View for MatchEnd {
    type V = MatchEndView;

    open spec fn view(&self) -> MatchEndView {
        MatchEndView {
            tick: self.tick,
            reason: self.reason,
            winner: self.winner,
            results: self.results@,
        }
    }
}

impl View for ServerFrame {
    type V = FrameView;

    open spec fn view(&self) -> FrameView {
        match self {
            ServerFrame::Assigned(f) => FrameView::Assigned(*f),
            ServerFrame::LobbyStatus(f) => FrameView::LobbyStatus(*f),
            ServerFrame::MatchInit(f) => FrameView::MatchInit(f@),
            ServerFrame::Keyframe(f) => FrameView::Keyframe(f@),
            ServerFrame::Delta(f) => FrameView::Delta(f@),
            ServerFrame::MatchEnd(f) => FrameView::MatchEnd(f@),
        }
    }
}

// ---------------------------------------------------------------------------
// The byte layouts
// ---------------------------------------------------------------------------

/// `alive` in bit 0, `moving` in bit 1.
pub open spec fn flags_byte(alive: bool, moving: bool) -> u8 {
    ((if alive { 1u8 } else { 0u8 }) | (if moving { 2u8 } else { 0u8 })) as u8
}

pub open spec fn player_bytes(p: PlayerSnapshot) -> Seq<u8> {
    seq![
        p.id,
        flags_byte(p.alive, p.moving),
        p.x,
        p.y,
        direction_code(p.dir),
        p.move_progress,
        p.bombs_max,
        p.flame,
        p.speed,
    ] + le16(p.score)
}

pub open spec fn bomb_bytes(b: BombSnapshot) -> Seq<u8> {
    le16(b.id) + seq![b.owner, b.x, b.y] + le16(b.fuse_remaining)
}

pub open spec fn flame_bytes(c: FlameCell) -> Seq<u8> {
    seq![c.x, c.y, c.ticks_remaining]
}

pub open spec fn powerup_bytes(p: PowerupSnapshot) -> Seq<u8> {
    le16(p.id) + seq![p.x, p.y, powerup_code(p.kind)]
}

pub open spec fn spawn_bytes(s: (u8, u8)) -> Seq<u8> {
    seq![s.0, s.1]
}

pub open spec fn result_bytes(r: PlayerResult) -> Seq<u8> {
    seq![r.id, r.placement] + le16(r.score)
}

pub open spec fn record_bytes(r: DeltaRecord) -> Seq<u8> {
    match r {
        DeltaRecord::PlayerState { id, alive, moving, x, y, dir, move_progress } => seq![
            record_type::PLAYER_STATE,
            id,
            flags_byte(alive, moving),
            x,
            y,
            direction_code(dir),
            move_progress,
        ],
        DeltaRecord::PlayerStats { id, bombs_max, flame, speed, score } => seq![
            record_type::PLAYER_STATS,
            id,
            bombs_max,
            flame,
            speed,
        ] + le16(score),
        DeltaRecord::BombAdd { id, owner, x, y, fuse } => seq![record_type::BOMB_ADD] + le16(id)
            + seq![owner, x, y] + le16(fuse),
        DeltaRecord::BombRemove { id } => seq![record_type::BOMB_REMOVE] + le16(id),
        DeltaRecord::Explosion { x, y, up, down, left, right } => seq![
            record_type::EXPLOSION,
            x,
            y,
            up,
            down,
            left,
            right,
        ],
        DeltaRecord::TileSet { x, y, tile } => seq![record_type::TILE_SET, x, y, tile_code(tile)],
        DeltaRecord::PowerupAdd { id, x, y, kind } => seq![record_type::POWERUP_ADD] + le16(id)
            + seq![x, y, powerup_code(kind)],
        DeltaRecord::PowerupRemove { id, taken_by } => seq![record_type::POWERUP_REMOVE] + le16(
            id,
        ) + seq![taken_by],
        DeltaRecord::PlayerDeath { id, killer } => seq![record_type::PLAYER_DEATH, id, killer],
        DeltaRecord::FlameAdd { x, y, ticks } => seq![record_type::FLAME_ADD, x, y, ticks],
        DeltaRecord::FlameRemove { x, y } => seq![record_type::FLAME_REMOVE, x, y],
        DeltaRecord::Timer { ticks_remaining } => seq![record_type::TIMER] + le32(
            ticks_remaining,
        ),
    }
}

/// The items of a list, one after another.
pub open spec fn list_bytes<T>(item: spec_fn(T) -> Seq<u8>, s: Seq<T>) -> Seq<u8>
    decreases s.len(),
{
    if s.len() == 0 {
        Seq::empty()
    } else {
        list_bytes(item, s.drop_last()) + item(s.last())
    }
}

pub open spec fn player_enc() -> spec_fn(PlayerSnapshot) -> Seq<u8> {
    |p: PlayerSnapshot| player_bytes(p)
}

pub open spec fn bomb_enc() -> spec_fn(BombSnapshot) -> Seq<u8> {
    |b: BombSnapshot| bomb_bytes(b)
}

pub open spec fn flame_enc() -> spec_fn(FlameCell) -> Seq<u8> {
    |c: FlameCell| flame_bytes(c)
}

pub open spec fn powerup_enc() -> spec_fn(PowerupSnapshot) -> Seq<u8> {
    |p: PowerupSnapshot| powerup_bytes(p)
}

pub open spec fn spawn_enc() -> spec_fn((u8, u8)) -> Seq<u8> {
    |s: (u8, u8)| spawn_bytes(s)
}

pub open spec fn result_enc() -> spec_fn(PlayerResult) -> Seq<u8> {
    |r: PlayerResult| result_bytes(r)
}

pub open spec fn record_enc() -> spec_fn(DeltaRecord) -> Seq<u8> {
    |r: DeltaRecord| record_bytes(r)
}

pub open spec fn grid_bytes(g: GridView) -> Seq<u8> {
    packed_cells(g.cells, spec_packed_len(g.width, g.height))
}

pub open spec fn match_init_body_bytes(f: MatchInitView) -> Seq<u8> {
    seq![f.protocol_version] + le32(f.match_id) + le64(f.seed) + seq![
        f.your_player_id,
        f.spawns.len() as u8,
        f.grid.width,
        f.grid.height,
    ] + grid_bytes(f.grid) + list_bytes(spawn_enc(), f.spawns) + rules_bytes(
        f.rules,
    )
}

pub open spec fn keyframe_body_bytes(f: KeyframeView) -> Seq<u8> {
    seq![f.grid.width, f.grid.height] + grid_bytes(f.grid) + seq![f.players.len() as u8]
        + list_bytes(player_enc(), f.players) + le16(f.bombs.len() as u16)
        + list_bytes(bomb_enc(), f.bombs) + le16(f.flames.len() as u16)
        + list_bytes(flame_enc(), f.flames) + le16(f.powerups.len() as u16)
        + list_bytes(powerup_enc(), f.powerups) + le32(f.ticks_remaining)
}

pub open spec fn delta_body_bytes(f: DeltaView) -> Seq<u8> {
    le32(f.base_tick) + le16(f.records.len() as u16) + list_bytes(record_enc(), f.records)
}

pub open spec fn match_end_body_bytes(f: MatchEndView) -> Seq<u8> {
    seq![end_reason_code(f.reason), f.winner, f.results.len() as u8] + list_bytes(result_enc(), f.results)
}

pub open spec fn frame_tag(f: FrameView) -> u8 {
    match f {
        FrameView::Assigned(_) => frame_type::ASSIGNED,
        FrameView::LobbyStatus(_) => frame_type::LOBBY_STATUS,
        FrameView::MatchInit(_) => frame_type::MATCH_INIT,
        FrameView::Keyframe(_) => frame_type::KEYFRAME,
        FrameView::Delta(_) => frame_type::DELTA,
        FrameView::MatchEnd(_) => frame_type::MATCH_END,
    }
}

pub open spec fn frame_tick(f: FrameView) -> u32 {
    match f {
        FrameView::Assigned(x) => x.tick,
        FrameView::LobbyStatus(x) => x.tick,
        FrameView::MatchInit(x) => x.tick,
        FrameView::Keyframe(x) => x.tick,
        FrameView::Delta(x) => x.tick,
        FrameView::MatchEnd(x) => x.tick,
    }
}

/// A frame as it goes on the wire: tag, tick, then the frame's own fields.
pub open spec fn frame_bytes(f: FrameView) -> Seq<u8> {
    seq![frame_tag(f)] + le32(frame_tick(f)) + match f {
        FrameView::Assigned(x) => seq![x.protocol_version, x.player_id, x.tick_rate, x.max_players],
        FrameView::LobbyStatus(x) => seq![
            lobby_state_code(x.state),
            x.players_connected,
            x.max_players,
            x.slot_mask,
        ] + le16(x.countdown_ticks),
        FrameView::MatchInit(x) => match_init_body_bytes(x),
        FrameView::Keyframe(x) => keyframe_body_bytes(x),
        FrameView::Delta(x) => delta_body_bytes(x),
        FrameView::MatchEnd(x) => match_end_body_bytes(x),
    }
}

/// A frame whose counts fit their length fields and whose grids hold one
/// tile per cell: the frames that survive the trip over the wire.
pub open spec fn frame_wf(f: FrameView) -> bool {
    match f {
        FrameView::MatchInit(x) => x.grid.wf() && x.spawns.len() <= 255,
        FrameView::Keyframe(x) => x.grid.wf() && x.players.len() <= 255 && x.bombs.len() <= 65535
            && x.flames.len() <= 65535 && x.powerups.len() <= 65535,
        FrameView::Delta(x) => x.records.len() <= 65535,
        FrameView::MatchEnd(x) => x.results.len() <= 255,
        _ => true,
    }
}

// ---------------------------------------------------------------------------
// Reading
// ---------------------------------------------------------------------------

/// Reading `n` items one after another, the first failure stopping the read.
pub open spec fn spec_list<T>(
    item: spec_fn(Seq<u8>, int) -> Result<(T, int), ProtoError>,
    buf: Seq<u8>,
    pos: int,
    n: nat,
) -> Result<(Seq<T>, int), ProtoError>
    decreases n,
{
    if n == 0 {
        Ok((Seq::empty(), pos))
    } else {
        match spec_list(item, buf, pos, (n - 1) as nat) {
            Err(e) => Err(e),
            Ok((s, p)) => match item(buf, p) {
                Err(e) => Err(e),
                Ok((v, q)) => Ok((s.push(v), q)),
            },
        }
    }
}

/// Once a list read has failed, reading more items fails the same way.
pub proof fn lemma_list_err<T>(
    item: spec_fn(Seq<u8>, int) -> Result<(T, int), ProtoError>,
    buf: Seq<u8>,
    pos: int,
    i: nat,
    n: nat,
)
    requires
        i <= n,
        spec_list(item, buf, pos, i) is Err,
    ensures
        spec_list(item, buf, pos, n) == spec_list(item, buf, pos, i),
    decreases n - i,
{
    if i < n {
        lemma_list_err(item, buf, pos, i, (n - 1) as nat);
    }
}

pub open spec fn player_parser() -> spec_fn(Seq<u8>, int) -> Result<(PlayerSnapshot, int), ProtoError> {
    |b: Seq<u8>, p: int| spec_player(b, p)
}

pub open spec fn bomb_parser() -> spec_fn(Seq<u8>, int) -> Result<(BombSnapshot, int), ProtoError> {
    |b: Seq<u8>, p: int| spec_bomb(b, p)
}

pub open spec fn flame_parser() -> spec_fn(Seq<u8>, int) -> Result<(FlameCell, int), ProtoError> {
    |b: Seq<u8>, p: int| spec_flame(b, p)
}

pub open spec fn powerup_parser() -> spec_fn(Seq<u8>, int) -> Result<(PowerupSnapshot, int), ProtoError> {
    |b: Seq<u8>, p: int| spec_powerup(b, p)
}

pub open spec fn spawn_parser() -> spec_fn(Seq<u8>, int) -> Result<((u8, u8), int), ProtoError> {
    |b: Seq<u8>, p: int| spec_spawn(b, p)
}

pub open spec fn result_parser() -> spec_fn(Seq<u8>, int) -> Result<(PlayerResult, int), ProtoError> {
    |b: Seq<u8>, p: int| spec_result(b, p)
}

pub open spec fn record_parser() -> spec_fn(Seq<u8>, int) -> Result<(DeltaRecord, int), ProtoError> {
    |b: Seq<u8>, p: int| spec_record(b, p)
}

pub open spec fn spec_dir(buf: Seq<u8>, pos: int) -> Result<(Direction, int), ProtoError> {
    match spec_u8(buf, pos) {
        Err(e) => Err(e),
        Ok((c, p)) => match spec_direction_from_code(c) {
            Ok(v) => Ok((v, p)),
            Err(e) => Err(e),
        },
    }
}

pub open spec fn spec_kind(buf: Seq<u8>, pos: int) -> Result<(PowerupKind, int), ProtoError> {
    match spec_u8(buf, pos) {
        Err(e) => Err(e),
        Ok((c, p)) => match spec_powerup_from_code(c) {
            Ok(v) => Ok((v, p)),
            Err(e) => Err(e),
        },
    }
}

pub open spec fn spec_tile_byte(buf: Seq<u8>, pos: int) -> Result<(Tile, int), ProtoError> {
    match spec_u8(buf, pos) {
        Err(e) => Err(e),
        Ok((c, p)) => match spec_tile_from_code(c) {
            Ok(v) => Ok((v, p)),
            Err(e) => Err(e),
        },
    }
}

pub open spec fn spec_lobby_state_byte(buf: Seq<u8>, pos: int) -> Result<(LobbyState, int), ProtoError> {
    match spec_u8(buf, pos) {
        Err(e) => Err(e),
        Ok((c, p)) => match spec_lobby_state_from_code(c) {
            Ok(v) => Ok((v, p)),
            Err(e) => Err(e),
        },
    }
}

pub open spec fn spec_end_reason_byte(buf: Seq<u8>, pos: int) -> Result<(EndReason, int), ProtoError> {
    match spec_u8(buf, pos) {
        Err(e) => Err(e),
        Ok((c, p)) => match spec_end_reason_from_code(c) {
            Ok(v) => Ok((v, p)),
            Err(e) => Err(e),
        },
    }
}

/// Reading a player snapshot at `pos`.
pub open spec fn spec_player(buf: Seq<u8>, pos: int) -> Result<(PlayerSnapshot, int), ProtoError> {
    match spec_u8(buf, pos) {
        Err(e) => Err(e),
        Ok((id, p1)) => {
            match spec_u8(buf, p1) {
                Err(e) => Err(e),
                Ok((flags, p2)) => {
                    match spec_u8(buf, p2) {
                        Err(e) => Err(e),
                        Ok((x, p3)) => {
                            match spec_u8(buf, p3) {
                                Err(e) => Err(e),
                                Ok((y, p4)) => {
                                    match spec_dir(buf, p4) {
                                        Err(e) => Err(e),
                                        Ok((dir, p5)) => {
                                            match spec_u8(buf, p5) {
                                                Err(e) => Err(e),
                                                Ok((move_progress, p6)) => {
                                                    match spec_u8(buf, p6) {
                                                        Err(e) => Err(e),
                                                        Ok((bombs_max, p7)) => {
                                                            match spec_u8(buf, p7) {
                                                                Err(e) => Err(e),
                                                                Ok((flame, p8)) => {
                                                                    match spec_u8(buf, p8) {
                                                                        Err(e) => Err(e),
                                                                        Ok((speed, p9)) => {
                                                                            match spec_u16(buf, p9) {
                                                                                Err(e) => Err(e),
                                                                                Ok((score, p10)) => {
                                                                                    Ok((PlayerSnapshot { id, alive: flags & 1u8 != 0, moving: flags & 2u8 != 0, x, y, dir, move_progress, bombs_max, flame, speed, score }, p10))
                                                                                },
                                                                            }
                                                                        },
                                                                    }
                                                                },
                                                            }
                                                        },
                                                    }
                                                },
                                            }
                                        },
                                    }
                                },
                            }
                        },
                    }
                },
            }
        },
    }
}

pub open spec fn spec_bomb(buf: Seq<u8>, pos: int) -> Result<(BombSnapshot, int), ProtoError> {
    match spec_u16(buf, pos) {
        Err(e) => Err(e),
        Ok((id, p1)) => {
            match spec_u8(buf, p1) {
                Err(e) => Err(e),
                Ok((owner, p2)) => {
                    match spec_u8(buf, p2) {
                        Err(e) => Err(e),
                        Ok((x, p3)) => {
                            match spec_u8(buf, p3) {
                                Err(e) => Err(e),
                                Ok((y, p4)) => {
                                    match spec_u16(buf, p4) {
                                        Err(e) => Err(e),
                                        Ok((fuse_remaining, p5)) => {
                                            Ok((BombSnapshot { id, owner, x, y, fuse_remaining }, p5))
                                        },
                                    }
                                },
                            }
                        },
                    }
                },
            }
        },
    }
}

pub open spec fn spec_flame(buf: Seq<u8>, pos: int) -> Result<(FlameCell, int), ProtoError> {
    match spec_u8(buf, pos) {
        Err(e) => Err(e),
        Ok((x, p1)) => {
            match spec_u8(buf, p1) {
                Err(e) => Err(e),
                Ok((y, p2)) => {
                    match spec_u8(buf, p2) {
                        Err(e) => Err(e),
                        Ok((ticks_remaining, p3)) => {
                            Ok((FlameCell { x, y, ticks_remaining }, p3))
                        },
                    }
                },
            }
        },
    }
}

pub open spec fn spec_powerup(buf: Seq<u8>, pos: int) -> Result<(PowerupSnapshot, int), ProtoError> {
    match spec_u16(buf, pos) {
        Err(e) => Err(e),
        Ok((id, p1)) => {
            match spec_u8(buf, p1) {
                Err(e) => Err(e),
                Ok((x, p2)) => {
                    match spec_u8(buf, p2) {
                        Err(e) => Err(e),
                        Ok((y, p3)) => {
                            match spec_kind(buf, p3) {
                                Err(e) => Err(e),
                                Ok((kind, p4)) => {
                                    Ok((PowerupSnapshot { id, x, y, kind }, p4))
                                },
                            }
                        },
                    }
                },
            }
        },
    }
}

pub open spec fn spec_spawn(buf: Seq<u8>, pos: int) -> Result<((u8, u8), int), ProtoError> {
    match spec_u8(buf, pos) {
        Err(e) => Err(e),
        Ok((x, p1)) => {
            match spec_u8(buf, p1) {
                Err(e) => Err(e),
                Ok((y, p2)) => {
                    Ok(((x, y), p2))
                },
            }
        },
    }
}

pub open spec fn spec_result(buf: Seq<u8>, pos: int) -> Result<(PlayerResult, int), ProtoError> {
    match spec_u8(buf, pos) {
        Err(e) => Err(e),
        Ok((id, p1)) => {
            match spec_u8(buf, p1) {
                Err(e) => Err(e),
                Ok((placement, p2)) => {
                    match spec_u16(buf, p2) {
                        Err(e) => Err(e),
                        Ok((score, p3)) => {
                            Ok((PlayerResult { id, placement, score }, p3))
                        },
                    }
                },
            }
        },
    }
}

pub open spec fn spec_rec_player_state(buf: Seq<u8>, pos: int) -> Result<(DeltaRecord, int), ProtoError> {
    match spec_u8(buf, pos) {
        Err(e) => Err(e),
        Ok((id, p1)) => {
            match spec_u8(buf, p1) {
                Err(e) => Err(e),
                Ok((flags, p2)) => {
                    match spec_u8(buf, p2) {
                        Err(e) => Err(e),
                        Ok((x, p3)) => {
                            match spec_u8(buf, p3) {
                                Err(e) => Err(e),
                                Ok((y, p4)) => {
                                    match spec_dir(buf, p4) {
                                        Err(e) => Err(e),
                                        Ok((dir, p5)) => {
                                            match spec_u8(buf, p5) {
                                                Err(e) => Err(e),
                                                Ok((move_progress, p6)) => {
                                                    Ok((DeltaRecord::PlayerState { id, alive: flags & 1u8 != 0, moving: flags & 2u8 != 0, x, y, dir, move_progress }, p6))
                                                },
                                            }
                                        },
                                    }
                                },
                            }
                        },
                    }
                },
            }
        },
    }
}

pub open spec fn spec_rec_player_stats(buf: Seq<u8>, pos: int) -> Result<(DeltaRecord, int), ProtoError> {
    match spec_u8(buf, pos) {
        Err(e) => Err(e),
        Ok((id, p1)) => {
            match spec_u8(buf, p1) {
                Err(e) => Err(e),
                Ok((bombs_max, p2)) => {
                    match spec_u8(buf, p2) {
                        Err(e) => Err(e),
                        Ok((flame, p3)) => {
                            match spec_u8(buf, p3) {
                                Err(e) => Err(e),
                                Ok((speed, p4)) => {
                                    match spec_u16(buf, p4) {
                                        Err(e) => Err(e),
                                        Ok((score, p5)) => {
                                            Ok((DeltaRecord::PlayerStats { id, bombs_max, flame, speed, score }, p5))
                                        },
                                    }
                                },
                            }
                        },
                    }
                },
            }
        },
    }
}

pub open spec fn spec_rec_bomb_add(buf: Seq<u8>, pos: int) -> Result<(DeltaRecord, int), ProtoError> {
    match spec_u16(buf, pos) {
        Err(e) => Err(e),
        Ok((id, p1)) => {
            match spec_u8(buf, p1) {
                Err(e) => Err(e),
                Ok((owner, p2)) => {
                    match spec_u8(buf, p2) {
                        Err(e) => Err(e),
                        Ok((x, p3)) => {
                            match spec_u8(buf, p3) {
                                Err(e) => Err(e),
                                Ok((y, p4)) => {
                                    match spec_u16(buf, p4) {
                                        Err(e) => Err(e),
                                        Ok((fuse, p5)) => {
                                            Ok((DeltaRecord::BombAdd { id, owner, x, y, fuse }, p5))
                                        },
                                    }
                                },
                            }
                        },
                    }
                },
            }
        },
    }
}

pub open spec fn spec_rec_bomb_remove(buf: Seq<u8>, pos: int) -> Result<(DeltaRecord, int), ProtoError> {
    match spec_u16(buf, pos) {
        Err(e) => Err(e),
        Ok((id, p1)) => {
            Ok((DeltaRecord::BombRemove { id }, p1))
        },
    }
}

pub open spec fn spec_rec_explosion(buf: Seq<u8>, pos: int) -> Result<(DeltaRecord, int), ProtoError> {
    match spec_u8(buf, pos) {
        Err(e) => Err(e),
        Ok((x, p1)) => {
            match spec_u8(buf, p1) {
                Err(e) => Err(e),
                Ok((y, p2)) => {
                    match spec_u8(buf, p2) {
                        Err(e) => Err(e),
                        Ok((up, p3)) => {
                            match spec_u8(buf, p3) {
                                Err(e) => Err(e),
                                Ok((down, p4)) => {
                                    match spec_u8(buf, p4) {
                                        Err(e) => Err(e),
                                        Ok((left, p5)) => {
                                            match spec_u8(buf, p5) {
                                                Err(e) => Err(e),
                                                Ok((right, p6)) => {
                                                    Ok((DeltaRecord::Explosion { x, y, up, down, left, right }, p6))
                                                },
                                            }
                                        },
                                    }
                                },
                            }
                        },
                    }
                },
            }
        },
    }
}

pub open spec fn spec_rec_tile_set(buf: Seq<u8>, pos: int) -> Result<(DeltaRecord, int), ProtoError> {
    match spec_u8(buf, pos) {
        Err(e) => Err(e),
        Ok((x, p1)) => {
            match spec_u8(buf, p1) {
                Err(e) => Err(e),
                Ok((y, p2)) => {
                    match spec_tile_byte(buf, p2) {
                        Err(e) => Err(e),
                        Ok((tile, p3)) => {
                            Ok((DeltaRecord::TileSet { x, y, tile }, p3))
                        },
                    }
                },
            }
        },
    }
}

pub open spec fn spec_rec_powerup_add(buf: Seq<u8>, pos: int) -> Result<(DeltaRecord, int), ProtoError> {
    match spec_u16(buf, pos) {
        Err(e) => Err(e),
        Ok((id, p1)) => {
            match spec_u8(buf, p1) {
                Err(e) => Err(e),
                Ok((x, p2)) => {
                    match spec_u8(buf, p2) {
                        Err(e) => Err(e),
                        Ok((y, p3)) => {
                            match spec_kind(buf, p3) {
                                Err(e) => Err(e),
                                Ok((kind, p4)) => {
                                    Ok((DeltaRecord::PowerupAdd { id, x, y, kind }, p4))
                                },
                            }
                        },
                    }
                },
            }
        },
    }
}

pub open spec fn spec_rec_powerup_remove(buf: Seq<u8>, pos: int) -> Result<(DeltaRecord, int), ProtoError> {
    match spec_u16(buf, pos) {
        Err(e) => Err(e),
        Ok((id, p1)) => {
            match spec_u8(buf, p1) {
                Err(e) => Err(e),
                Ok((taken_by, p2)) => {
                    Ok((DeltaRecord::PowerupRemove { id, taken_by }, p2))
                },
            }
        },
    }
}

pub open spec fn spec_rec_player_death(buf: Seq<u8>, pos: int) -> Result<(DeltaRecord, int), ProtoError> {
    match spec_u8(buf, pos) {
        Err(e) => Err(e),
        Ok((id, p1)) => {
            match spec_u8(buf, p1) {
                Err(e) => Err(e),
                Ok((killer, p2)) => {
                    Ok((DeltaRecord::PlayerDeath { id, killer }, p2))
                },
            }
        },
    }
}

pub open spec fn spec_rec_flame_add(buf: Seq<u8>, pos: int) -> Result<(DeltaRecord, int), ProtoError> {
    match spec_u8(buf, pos) {
        Err(e) => Err(e),
        Ok((x, p1)) => {
            match spec_u8(buf, p1) {
                Err(e) => Err(e),
                Ok((y, p2)) => {
                    match spec_u8(buf, p2) {
                        Err(e) => Err(e),
                        Ok((ticks, p3)) => {
                            Ok((DeltaRecord::FlameAdd { x, y, ticks }, p3))
                        },
                    }
                },
            }
        },
    }
}

pub open spec fn spec_rec_flame_remove(buf: Seq<u8>, pos: int) -> Result<(DeltaRecord, int), ProtoError> {
    match spec_u8(buf, pos) {
        Err(e) => Err(e),
        Ok((x, p1)) => {
            match spec_u8(buf, p1) {
                Err(e) => Err(e),
                Ok((y, p2)) => {
                    Ok((DeltaRecord::FlameRemove { x, y }, p2))
                },
            }
        },
    }
}

pub open spec fn spec_rec_timer(buf: Seq<u8>, pos: int) -> Result<(DeltaRecord, int), ProtoError> {
    match spec_u32(buf, pos) {
        Err(e) => Err(e),
        Ok((ticks_remaining, p1)) => {
            Ok((DeltaRecord::Timer { ticks_remaining }, p1))
        },
    }
}

/// Reading one delta record at `pos`: its tag, then its fields.
pub open spec fn spec_record(buf: Seq<u8>, pos: int) -> Result<(DeltaRecord, int), ProtoError> {
    match spec_u8(buf, pos) {
        Err(e) => Err(e),
        Ok((tag, p)) => {
            if tag == record_type::PLAYER_STATE {
                spec_rec_player_state(buf, p)
            } else if tag == record_type::PLAYER_STATS {
                spec_rec_player_stats(buf, p)
            } else if tag == record_type::BOMB_ADD {
                spec_rec_bomb_add(buf, p)
            } else if tag == record_type::BOMB_REMOVE {
                spec_rec_bomb_remove(buf, p)
            } else if tag == record_type::EXPLOSION {
                spec_rec_explosion(buf, p)
            } else if tag == record_type::TILE_SET {
                spec_rec_tile_set(buf, p)
            } else if tag == record_type::POWERUP_ADD {
                spec_rec_powerup_add(buf, p)
            } else if tag == record_type::POWERUP_REMOVE {
                spec_rec_powerup_remove(buf, p)
            } else if tag == record_type::PLAYER_DEATH {
                spec_rec_player_death(buf, p)
            } else if tag == record_type::FLAME_ADD {
                spec_rec_flame_add(buf, p)
            } else if tag == record_type::FLAME_REMOVE {
                spec_rec_flame_remove(buf, p)
            } else if tag == record_type::TIMER {
                spec_rec_timer(buf, p)
            } else {
                Err(ProtoError::UnknownRecord(tag))
            }
        },
    }
}

pub open spec fn spec_assigned_body(buf: Seq<u8>, pos: int, tick: u32) -> Result<(Assigned, int), ProtoError> {
    match spec_u8(buf, pos) {
        Err(e) => Err(e),
        Ok((protocol_version, p1)) => {
            match spec_u8(buf, p1) {
                Err(e) => Err(e),
                Ok((player_id, p2)) => {
                    match spec_u8(buf, p2) {
                        Err(e) => Err(e),
                        Ok((tick_rate, p3)) => {
                            match spec_u8(buf, p3) {
                                Err(e) => Err(e),
                                Ok((max_players, p4)) => {
                                    Ok((Assigned { tick, protocol_version, player_id, tick_rate, max_players }, p4))
                                },
                            }
                        },
                    }
                },
            }
        },
    }
}

pub open spec fn spec_lobby_body(buf: Seq<u8>, pos: int, tick: u32) -> Result<(LobbyStatus, int), ProtoError> {
    match spec_lobby_state_byte(buf, pos) {
        Err(e) => Err(e),
        Ok((state, p1)) => {
            match spec_u8(buf, p1) {
                Err(e) => Err(e),
                Ok((players_connected, p2)) => {
                    match spec_u8(buf, p2) {
                        Err(e) => Err(e),
                        Ok((max_players, p3)) => {
                            match spec_u8(buf, p3) {
                                Err(e) => Err(e),
                                Ok((slot_mask, p4)) => {
                                    match spec_u16(buf, p4) {
                                        Err(e) => Err(e),
                                        Ok((countdown_ticks, p5)) => {
                                            Ok((LobbyStatus { tick, state, players_connected, max_players, slot_mask, countdown_ticks }, p5))
                                        },
                                    }
                                },
                            }
                        },
                    }
                },
            }
        },
    }
}

pub open spec fn spec_match_init_body(buf: Seq<u8>, pos: int, tick: u32) -> Result<(MatchInitView, int), ProtoError> {
    match spec_u8(buf, pos) {
        Err(e) => Err(e),
        Ok((protocol_version, p1)) => {
            match spec_u32(buf, p1) {
                Err(e) => Err(e),
                Ok((match_id, p2)) => {
                    match spec_u64(buf, p2) {
                        Err(e) => Err(e),
                        Ok((seed, p3)) => {
                            match spec_u8(buf, p3) {
                                Err(e) => Err(e),
                                Ok((your_player_id, p4)) => {
                                    match spec_u8(buf, p4) {
                                        Err(e) => Err(e),
                                        Ok((player_count, p5)) => {
                                            match spec_u8(buf, p5) {
                                                Err(e) => Err(e),
                                                Ok((width, p6)) => {
                                                    match spec_u8(buf, p6) {
                                                        Err(e) => Err(e),
                                                        Ok((height, p7)) => {
                                                            match spec_grid(buf, p7, width, height) {
                                                                Err(e) => Err(e),
                                                                Ok((grid, p8)) => {
                                                                    match spec_list(spawn_parser(), buf, p8, player_count as nat) {
                                                                        Err(e) => Err(e),
                                                                        Ok((spawns, p9)) => {
                                                                            match spec_rules(buf, p9) {
                                                                                Err(e) => Err(e),
                                                                                Ok((rules, p10)) => {
                                                                                    Ok((MatchInitView { tick, protocol_version, match_id, seed, your_player_id, grid, spawns, rules }, p10))
                                                                                },
                                                                            }
                                                                        },
                                                                    }
                                                                },
                                                            }
                                                        },
                                                    }
                                                },
                                            }
                                        },
                                    }
                                },
                            }
                        },
                    }
                },
            }
        },
    }
}

pub open spec fn spec_keyframe_body(buf: Seq<u8>, pos: int, tick: u32) -> Result<(KeyframeView, int), ProtoError> {
    match spec_u8(buf, pos) {
        Err(e) => Err(e),
        Ok((width, p1)) => {
            match spec_u8(buf, p1) {
                Err(e) => Err(e),
                Ok((height, p2)) => {
                    match spec_grid(buf, p2, width, height) {
                        Err(e) => Err(e),
                        Ok((grid, p3)) => {
                            match spec_u8(buf, p3) {
                                Err(e) => Err(e),
                                Ok((player_count, p4)) => {
                                    match spec_list(player_parser(), buf, p4, player_count as nat) {
                                        Err(e) => Err(e),
                                        Ok((players, p5)) => {
                                            match spec_u16(buf, p5) {
                                                Err(e) => Err(e),
                                                Ok((bomb_count, p6)) => {
                                                    match spec_list(bomb_parser(), buf, p6, bomb_count as nat) {
                                                        Err(e) => Err(e),
                                                        Ok((bombs, p7)) => {
                                                            match spec_u16(buf, p7) {
                                                                Err(e) => Err(e),
                                                                Ok((flame_count, p8)) => {
                                                                    match spec_list(flame_parser(), buf, p8, flame_count as nat) {
                                                                        Err(e) => Err(e),
                                                                        Ok((flames, p9)) => {
                                                                            match spec_u16(buf, p9) {
                                                                                Err(e) => Err(e),
                                                                                Ok((powerup_count, p10)) => {
                                                                                    match spec_list(powerup_parser(), buf, p10, powerup_count as nat) {
                                                                                        Err(e) => Err(e),
                                                                                        Ok((powerups, p11)) => {
                                                                                            match spec_u32(buf, p11) {
                                                                                                Err(e) => Err(e),
                                                                                                Ok((ticks_remaining, p12)) => {
                                                                                                    Ok((KeyframeView { tick, grid, players, bombs, flames, powerups, ticks_remaining }, p12))
                                                                                                },
                                                                                            }
                                                                                        },
                                                                                    }
                                                                                },
                                                                            }
                                                                        },
                                                                    }
                                                                },
                                                            }
                                                        },
                                                    }
                                                },
                                            }
                                        },
                                    }
                                },
                            }
                        },
                    }
                },
            }
        },
    }
}

pub open spec fn spec_delta_body(buf: Seq<u8>, pos: int, tick: u32) -> Result<(DeltaView, int), ProtoError> {
    match spec_u32(buf, pos) {
        Err(e) => Err(e),
        Ok((base_tick, p1)) => {
            match spec_u16(buf, p1) {
                Err(e) => Err(e),
                Ok((count, p2)) => {
                    match spec_list(record_parser(), buf, p2, count as nat) {
                        Err(e) => Err(e),
                        Ok((records, p3)) => {
                            Ok((DeltaView { tick, base_tick, records }, p3))
                        },
                    }
                },
            }
        },
    }
}

pub open spec fn spec_match_end_body(buf: Seq<u8>, pos: int, tick: u32) -> Result<(MatchEndView, int), ProtoError> {
    match spec_end_reason_byte(buf, pos) {
        Err(e) => Err(e),
        Ok((reason, p1)) => {
            match spec_u8(buf, p1) {
                Err(e) => Err(e),
                Ok((winner, p2)) => {
                    match spec_u8(buf, p2) {
                        Err(e) => Err(e),
                        Ok((count, p3)) => {
                            match spec_list(result_parser(), buf, p3, count as nat) {
                                Err(e) => Err(e),
                                Ok((results, p4)) => {
                                    Ok((MatchEndView { tick, reason, winner, results }, p4))
                                },
                            }
                        },
                    }
                },
            }
        },
    }
}

/// Reading a whole frame: its tag, its tick, then the fields that tag calls for.
pub open spec fn spec_frame(buf: Seq<u8>) -> Result<FrameView, ProtoError> {
    match spec_u8(buf, 0) {
        Err(e) => Err(e),
        Ok((ty, p1)) => match spec_u32(buf, p1) {
            Err(e) => Err(e),
            Ok((tick, p2)) => {
                if ty == frame_type::ASSIGNED {
                    match spec_assigned_body(buf, p2, tick) {
                        Ok((f, _)) => Ok(FrameView::Assigned(f)),
                        Err(e) => Err(e),
                    }
                } else if ty == frame_type::LOBBY_STATUS {
                    match spec_lobby_body(buf, p2, tick) {
                        Ok((f, _)) => Ok(FrameView::LobbyStatus(f)),
                        Err(e) => Err(e),
                    }
                } else if ty == frame_type::MATCH_INIT {
                    match spec_match_init_body(buf, p2, tick) {
                        Ok((f, _)) => Ok(FrameView::MatchInit(f)),
                        Err(e) => Err(e),
                    }
                } else if ty == frame_type::KEYFRAME {
                    match spec_keyframe_body(buf, p2, tick) {
                        Ok((f, _)) => Ok(FrameView::Keyframe(f)),
                        Err(e) => Err(e),
                    }
                } else if ty == frame_type::DELTA {
                    match spec_delta_body(buf, p2, tick) {
                        Ok((f, _)) => Ok(FrameView::Delta(f)),
                        Err(e) => Err(e),
                    }
                } else if ty == frame_type::MATCH_END {
                    match spec_match_end_body(buf, p2, tick) {
                        Ok((f, _)) => Ok(FrameView::MatchEnd(f)),
                        Err(e) => Err(e),
                    }
                } else {
                    Err(ProtoError::UnknownFrame(ty))
                }
            },
        },
    }
}

// ---------------------------------------------------------------------------
// Executable encoding and decoding
// ---------------------------------------------------------------------------

/// Appending one more item extends the list's bytes by that item's bytes.
pub proof fn lemma_list_bytes_push<T>(item: spec_fn(T) -> Seq<u8>, s: Seq<T>, i: int)
    requires
        0 <= i < s.len(),
    ensures
        list_bytes(item, s.take(i + 1)) == list_bytes(item, s.take(i)) + item(s[i]),
{
    assert(s.take(i + 1).drop_last() =~= s.take(i));
}

fn flags(alive: bool, moving: bool) -> (b: u8)
    ensures
        b == flags_byte(alive, moving),
{
    (if alive {
        1u8
    } else {
        0u8
    }) | (if moving {
        2u8
    } else {
        0u8
    })
}

impl PlayerSnapshot {
    pub const ENCODED_LEN: usize = 11;

    pub fn encode(&self, w: &mut Writer)
        ensures
            final(w)@ == old(w)@ + player_bytes(*self),
    {
        w.u8(self.id).u8(flags(self.alive, self.moving)).u8(self.x).u8(self.y).u8(
            self.dir.code(),
        ).u8(self.move_progress).u8(self.bombs_max).u8(self.flame).u8(self.speed).u16(
            self.score,
        );
        assert(w@ =~= old(w)@ + player_bytes(*self));
    }

    pub fn decode(r: &mut Reader) -> (res: Result<Self, ProtoError>)
        ensures
            final(r)@.0 == old(r)@.0,
            match spec_player(old(r)@.0, old(r)@.1) {
                Ok((v, p)) => res == Ok::<Self, ProtoError>(v) && final(r)@.1 == p,
                Err(e) => res == Err::<Self, ProtoError>(e),
            },
    {
        let id = r.u8()?;
        let flags = r.u8()?;
        let x = r.u8()?;
        let y = r.u8()?;
        let dir = Direction::from_code(r.u8()?)?;
        let move_progress = r.u8()?;
        let bombs_max = r.u8()?;
        let flame = r.u8()?;
        let speed = r.u8()?;
        let score = r.u16()?;
        Ok(
            PlayerSnapshot {
                id,
                alive: flags & 1u8 != 0,
                moving: flags & 2u8 != 0,
                x,
                y,
                dir,
                move_progress,
                bombs_max,
                flame,
                speed,
                score,
            },
        )
    }
}

impl BombSnapshot {
    pub const ENCODED_LEN: usize = 7;

    pub fn encode(&self, w: &mut Writer)
        ensures
            final(w)@ == old(w)@ + bomb_bytes(*self),
    {
        w.u16(self.id).u8(self.owner).u8(self.x).u8(self.y).u16(self.fuse_remaining);
        assert(w@ =~= old(w)@ + bomb_bytes(*self));
    }

    pub fn decode(r: &mut Reader) -> (res: Result<Self, ProtoError>)
        ensures
            final(r)@.0 == old(r)@.0,
            match spec_bomb(old(r)@.0, old(r)@.1) {
                Ok((v, p)) => res == Ok::<Self, ProtoError>(v) && final(r)@.1 == p,
                Err(e) => res == Err::<Self, ProtoError>(e),
            },
    {
        let id = r.u16()?;
        let owner = r.u8()?;
        let x = r.u8()?;
        let y = r.u8()?;
        let fuse_remaining = r.u16()?;
        Ok(BombSnapshot { id, owner, x, y, fuse_remaining })
    }
}

impl FlameCell {
    pub const ENCODED_LEN: usize = 3;

    pub fn encode(&self, w: &mut Writer)
        ensures
            final(w)@ == old(w)@ + flame_bytes(*self),
    {
        w.u8(self.x).u8(self.y).u8(self.ticks_remaining);
        assert(w@ =~= old(w)@ + flame_bytes(*self));
    }

    pub fn decode(r: &mut Reader) -> (res: Result<Self, ProtoError>)
        ensures
            final(r)@.0 == old(r)@.0,
            match spec_flame(old(r)@.0, old(r)@.1) {
                Ok((v, p)) => res == Ok::<Self, ProtoError>(v) && final(r)@.1 == p,
                Err(e) => res == Err::<Self, ProtoError>(e),
            },
    {
        let x = r.u8()?;
        let y = r.u8()?;
        let ticks_remaining = r.u8()?;
        Ok(FlameCell { x, y, ticks_remaining })
    }
}

impl PowerupSnapshot {
    pub const ENCODED_LEN: usize = 5;

    pub fn encode(&self, w: &mut Writer)
        ensures
            final(w)@ == old(w)@ + powerup_bytes(*self),
    {
        w.u16(self.id).u8(self.x).u8(self.y).u8(self.kind.code());
        assert(w@ =~= old(w)@ + powerup_bytes(*self));
    }

    pub fn decode(r: &mut Reader) -> (res: Result<Self, ProtoError>)
        ensures
            final(r)@.0 == old(r)@.0,
            match spec_powerup(old(r)@.0, old(r)@.1) {
                Ok((v, p)) => res == Ok::<Self, ProtoError>(v) && final(r)@.1 == p,
                Err(e) => res == Err::<Self, ProtoError>(e),
            },
    {
        let id = r.u16()?;
        let x = r.u8()?;
        let y = r.u8()?;
        let kind = PowerupKind::from_code(r.u8()?)?;
        Ok(PowerupSnapshot { id, x, y, kind })
    }
}

impl DeltaRecord {
    pub fn encode(&self, w: &mut Writer)
        ensures
            final(w)@ == old(w)@ + record_bytes(*self),
    {
        match *self {
            DeltaRecord::PlayerState { id, alive, moving, x, y, dir, move_progress } => {
                w.u8(record_type::PLAYER_STATE).u8(id).u8(flags(alive, moving)).u8(x).u8(y).u8(
                    dir.code(),
                ).u8(move_progress);
            },
            DeltaRecord::PlayerStats { id, bombs_max, flame, speed, score } => {
                w.u8(record_type::PLAYER_STATS).u8(id).u8(bombs_max).u8(flame).u8(speed).u16(
                    score,
                );
            },
            DeltaRecord::BombAdd { id, owner, x, y, fuse } => {
                w.u8(record_type::BOMB_ADD).u16(id).u8(owner).u8(x).u8(y).u16(fuse);
            },
            DeltaRecord::BombRemove { id } => {
                w.u8(record_type::BOMB_REMOVE).u16(id);
            },
            DeltaRecord::Explosion { x, y, up, down, left, right } => {
                w.u8(record_type::EXPLOSION).u8(x).u8(y).u8(up).u8(down).u8(left).u8(right);
            },
            DeltaRecord::TileSet { x, y, tile } => {
                w.u8(record_type::TILE_SET).u8(x).u8(y).u8(tile.code());
            },
            DeltaRecord::PowerupAdd { id, x, y, kind } => {
                w.u8(record_type::POWERUP_ADD).u16(id).u8(x).u8(y).u8(kind.code());
            },
            DeltaRecord::PowerupRemove { id, taken_by } => {
                w.u8(record_type::POWERUP_REMOVE).u16(id).u8(taken_by);
            },
            DeltaRecord::PlayerDeath { id, killer } => {
                w.u8(record_type::PLAYER_DEATH).u8(id).u8(killer);
            },
            DeltaRecord::FlameAdd { x, y, ticks } => {
                w.u8(record_type::FLAME_ADD).u8(x).u8(y).u8(ticks);
            },
            DeltaRecord::FlameRemove { x, y } => {
                w.u8(record_type::FLAME_REMOVE).u8(x).u8(y);
            },
            DeltaRecord::Timer { ticks_remaining } => {
                w.u8(record_type::TIMER).u32(ticks_remaining);
            },
        }
        assert(w@ =~= old(w)@ + record_bytes(*self));
    }

    pub fn decode(r: &mut Reader) -> (res: Result<Self, ProtoError>)
        ensures
            final(r)@.0 == old(r)@.0,
            match spec_record(old(r)@.0, old(r)@.1) {
                Ok((v, p)) => res == Ok::<Self, ProtoError>(v) && final(r)@.1 == p,
                Err(e) => res == Err::<Self, ProtoError>(e),
            },
    {
        let tag = r.u8()?;
        if tag == record_type::PLAYER_STATE {
            let id = r.u8()?;
            let flags = r.u8()?;
            let x = r.u8()?;
            let y = r.u8()?;
            let dir = Direction::from_code(r.u8()?)?;
            let move_progress = r.u8()?;
            Ok(
                DeltaRecord::PlayerState {
                    id,
                    alive: flags & 1u8 != 0,
                    moving: flags & 2u8 != 0,
                    x,
                    y,
                    dir,
                    move_progress,
                },
            )
        } else if tag == record_type::PLAYER_STATS {
            let id = r.u8()?;
            let bombs_max = r.u8()?;
            let flame = r.u8()?;
            let speed = r.u8()?;
            let score = r.u16()?;
            Ok(DeltaRecord::PlayerStats { id, bombs_max, flame, speed, score })
        } else if tag == record_type::BOMB_ADD {
            let id = r.u16()?;
            let owner = r.u8()?;
            let x = r.u8()?;
            let y = r.u8()?;
            let fuse = r.u16()?;
            Ok(DeltaRecord::BombAdd { id, owner, x, y, fuse })
        } else if tag == record_type::BOMB_REMOVE {
            let id = r.u16()?;
            Ok(DeltaRecord::BombRemove { id })
        } else if tag == record_type::EXPLOSION {
            let x = r.u8()?;
            let y = r.u8()?;
            let up = r.u8()?;
            let down = r.u8()?;
            let left = r.u8()?;
            let right = r.u8()?;
            Ok(DeltaRecord::Explosion { x, y, up, down, left, right })
        } else if tag == record_type::TILE_SET {
            let x = r.u8()?;
            let y = r.u8()?;
            let tile = Tile::from_code(r.u8()?)?;
            Ok(DeltaRecord::TileSet { x, y, tile })
        } else if tag == record_type::POWERUP_ADD {
            let id = r.u16()?;
            let x = r.u8()?;
            let y = r.u8()?;
            let kind = PowerupKind::from_code(r.u8()?)?;
            Ok(DeltaRecord::PowerupAdd { id, x, y, kind })
        } else if tag == record_type::POWERUP_REMOVE {
            let id = r.u16()?;
            let taken_by = r.u8()?;
            Ok(DeltaRecord::PowerupRemove { id, taken_by })
        } else if tag == record_type::PLAYER_DEATH {
            let id = r.u8()?;
            let killer = r.u8()?;
            Ok(DeltaRecord::PlayerDeath { id, killer })
        } else if tag == record_type::FLAME_ADD {
            let x = r.u8()?;
            let y = r.u8()?;
            let ticks = r.u8()?;
            Ok(DeltaRecord::FlameAdd { x, y, ticks })
        } else if tag == record_type::FLAME_REMOVE {
            let x = r.u8()?;
            let y = r.u8()?;
            Ok(DeltaRecord::FlameRemove { x, y })
        } else if tag == record_type::TIMER {
            let ticks_remaining = r.u32()?;
            Ok(DeltaRecord::Timer { ticks_remaining })
        } else {
            Err(ProtoError::UnknownRecord(tag))
        }
    }
}


fn decode_players(r: &mut Reader, count: usize) -> (res: Result<Vec<PlayerSnapshot>, ProtoError>)
    ensures
        final(r)@.0 == old(r)@.0,
        match spec_list(player_parser(), old(r)@.0, old(r)@.1, count as nat) {
            Ok((v, p)) => res matches Ok(out) && out@ == v && final(r)@.1 == p,
            Err(e) => res == Err::<Vec<PlayerSnapshot>, ProtoError>(e),
        },
{
    let ghost buf = r@.0;
    let ghost start = r@.1;
    let mut out: Vec<PlayerSnapshot> = Vec::new();
    let mut i: usize = 0;
    while i < count
        invariant
            i <= count,
            r@.0 == buf,
            buf == old(r)@.0,
            start == old(r)@.1,
            spec_list(player_parser(), buf, start, i as nat) == Ok::<(Seq<PlayerSnapshot>, int), ProtoError>(
                (out@, r@.1),
            ),
        decreases count - i,
    {
        match PlayerSnapshot::decode(r) {
            Ok(item) => {
                out.push(item);
            },
            Err(e) => {
                proof {
                    lemma_list_err(player_parser(), buf, start, (i + 1) as nat, count as nat);
                }
                return Err(e);
            },
        }
        i = i + 1;
    }
    Ok(out)
}

fn encode_players(v: &Vec<PlayerSnapshot>, w: &mut Writer)
    ensures
        final(w)@ == old(w)@ + list_bytes(player_enc(), v@),
{
    let ghost start = w@;
    let mut i: usize = 0;
    while i < v.len()
        invariant
            i <= v@.len(),
            start == old(w)@,
            w@ == start + list_bytes(player_enc(), v@.take(i as int)),
        decreases v@.len() - i,
    {
        let ghost before = w@;
        v[i].encode(w);
        proof {
            lemma_list_bytes_push(player_enc(), v@, i as int);
            assert(w@ =~= start + list_bytes(player_enc(), v@.take(i + 1)));
        }
        i = i + 1;
    }
    assert(v@.take(v@.len() as int) =~= v@);
}

fn decode_bombs(r: &mut Reader, count: usize) -> (res: Result<Vec<BombSnapshot>, ProtoError>)
    ensures
        final(r)@.0 == old(r)@.0,
        match spec_list(bomb_parser(), old(r)@.0, old(r)@.1, count as nat) {
            Ok((v, p)) => res matches Ok(out) && out@ == v && final(r)@.1 == p,
            Err(e) => res == Err::<Vec<BombSnapshot>, ProtoError>(e),
        },
{
    let ghost buf = r@.0;
    let ghost start = r@.1;
    let mut out: Vec<BombSnapshot> = Vec::new();
    let mut i: usize = 0;
    while i < count
        invariant
            i <= count,
            r@.0 == buf,
            buf == old(r)@.0,
            start == old(r)@.1,
            spec_list(bomb_parser(), buf, start, i as nat) == Ok::<(Seq<BombSnapshot>, int), ProtoError>(
                (out@, r@.1),
            ),
        decreases count - i,
    {
        match BombSnapshot::decode(r) {
            Ok(item) => {
                out.push(item);
            },
            Err(e) => {
                proof {
                    lemma_list_err(bomb_parser(), buf, start, (i + 1) as nat, count as nat);
                }
                return Err(e);
            },
        }
        i = i + 1;
    }
    Ok(out)
}

fn encode_bombs(v: &Vec<BombSnapshot>, w: &mut Writer)
    ensures
        final(w)@ == old(w)@ + list_bytes(bomb_enc(), v@),
{
    let ghost start = w@;
    let mut i: usize = 0;
    while i < v.len()
        invariant
            i <= v@.len(),
            start == old(w)@,
            w@ == start + list_bytes(bomb_enc(), v@.take(i as int)),
        decreases v@.len() - i,
    {
        let ghost before = w@;
        v[i].encode(w);
        proof {
            lemma_list_bytes_push(bomb_enc(), v@, i as int);
            assert(w@ =~= start + list_bytes(bomb_enc(), v@.take(i + 1)));
        }
        i = i + 1;
    }
    assert(v@.take(v@.len() as int) =~= v@);
}

fn decode_flames(r: &mut Reader, count: usize) -> (res: Result<Vec<FlameCell>, ProtoError>)
    ensures
        final(r)@.0 == old(r)@.0,
        match spec_list(flame_parser(), old(r)@.0, old(r)@.1, count as nat) {
            Ok((v, p)) => res matches Ok(out) && out@ == v && final(r)@.1 == p,
            Err(e) => res == Err::<Vec<FlameCell>, ProtoError>(e),
        },
{
    let ghost buf = r@.0;
    let ghost start = r@.1;
    let mut out: Vec<FlameCell> = Vec::new();
    let mut i: usize = 0;
    while i < count
        invariant
            i <= count,
            r@.0 == buf,
            buf == old(r)@.0,
            start == old(r)@.1,
            spec_list(flame_parser(), buf, start, i as nat) == Ok::<(Seq<FlameCell>, int), ProtoError>(
                (out@, r@.1),
            ),
        decreases count - i,
    {
        match FlameCell::decode(r) {
            Ok(item) => {
                out.push(item);
            },
            Err(e) => {
                proof {
                    lemma_list_err(flame_parser(), buf, start, (i + 1) as nat, count as nat);
                }
                return Err(e);
            },
        }
        i = i + 1;
    }
    Ok(out)
}

fn encode_flames(v: &Vec<FlameCell>, w: &mut Writer)
    ensures
        final(w)@ == old(w)@ + list_bytes(flame_enc(), v@),
{
    let ghost start = w@;
    let mut i: usize = 0;
    while i < v.len()
        invariant
            i <= v@.len(),
            start == old(w)@,
            w@ == start + list_bytes(flame_enc(), v@.take(i as int)),
        decreases v@.len() - i,
    {
        let ghost before = w@;
        v[i].encode(w);
        proof {
            lemma_list_bytes_push(flame_enc(), v@, i as int);
            assert(w@ =~= start + list_bytes(flame_enc(), v@.take(i + 1)));
        }
        i = i + 1;
    }
    assert(v@.take(v@.len() as int) =~= v@);
}

fn decode_powerups(r: &mut Reader, count: usize) -> (res: Result<Vec<PowerupSnapshot>, ProtoError>)
    ensures
        final(r)@.0 == old(r)@.0,
        match spec_list(powerup_parser(), old(r)@.0, old(r)@.1, count as nat) {
            Ok((v, p)) => res matches Ok(out) && out@ == v && final(r)@.1 == p,
            Err(e) => res == Err::<Vec<PowerupSnapshot>, ProtoError>(e),
        },
{
    let ghost buf = r@.0;
    let ghost start = r@.1;
    let mut out: Vec<PowerupSnapshot> = Vec::new();
    let mut i: usize = 0;
    while i < count
        invariant
            i <= count,
            r@.0 == buf,
            buf == old(r)@.0,
            start == old(r)@.1,
            spec_list(powerup_parser(), buf, start, i as nat) == Ok::<(Seq<PowerupSnapshot>, int), ProtoError>(
                (out@, r@.1),
            ),
        decreases count - i,
    {
        match PowerupSnapshot::decode(r) {
            Ok(item) => {
                out.push(item);
            },
            Err(e) => {
                proof {
                    lemma_list_err(powerup_parser(), buf, start, (i + 1) as nat, count as nat);
                }
                return Err(e);
            },
        }
        i = i + 1;
    }
    Ok(out)
}

fn encode_powerups(v: &Vec<PowerupSnapshot>, w: &mut Writer)
    ensures
        final(w)@ == old(w)@ + list_bytes(powerup_enc(), v@),
{
    let ghost start = w@;
    let mut i: usize = 0;
    while i < v.len()
        invariant
            i <= v@.len(),
            start == old(w)@,
            w@ == start + list_bytes(powerup_enc(), v@.take(i as int)),
        decreases v@.len() - i,
    {
        let ghost before = w@;
        v[i].encode(w);
        proof {
            lemma_list_bytes_push(powerup_enc(), v@, i as int);
            assert(w@ =~= start + list_bytes(powerup_enc(), v@.take(i + 1)));
        }
        i = i + 1;
    }
    assert(v@.take(v@.len() as int) =~= v@);
}

fn decode_spawns(r: &mut Reader, count: usize) -> (res: Result<Vec<(u8, u8)>, ProtoError>)
    ensures
        final(r)@.0 == old(r)@.0,
        match spec_list(spawn_parser(), old(r)@.0, old(r)@.1, count as nat) {
            Ok((v, p)) => res matches Ok(out) && out@ == v && final(r)@.1 == p,
            Err(e) => res == Err::<Vec<(u8, u8)>, ProtoError>(e),
        },
{
    let ghost buf = r@.0;
    let ghost start = r@.1;
    let mut out: Vec<(u8, u8)> = Vec::new();
    let mut i: usize = 0;
    while i < count
        invariant
            i <= count,
            r@.0 == buf,
            buf == old(r)@.0,
            start == old(r)@.1,
            spec_list(spawn_parser(), buf, start, i as nat) == Ok::<(Seq<(u8, u8)>, int), ProtoError>(
                (out@, r@.1),
            ),
        decreases count - i,
    {
        match decode_spawn(r) {
            Ok(item) => {
                out.push(item);
            },
            Err(e) => {
                proof {
                    lemma_list_err(spawn_parser(), buf, start, (i + 1) as nat, count as nat);
                }
                return Err(e);
            },
        }
        i = i + 1;
    }
    Ok(out)
}

fn encode_spawns(v: &Vec<(u8, u8)>, w: &mut Writer)
    ensures
        final(w)@ == old(w)@ + list_bytes(spawn_enc(), v@),
{
    let ghost start = w@;
    let mut i: usize = 0;
    while i < v.len()
        invariant
            i <= v@.len(),
            start == old(w)@,
            w@ == start + list_bytes(spawn_enc(), v@.take(i as int)),
        decreases v@.len() - i,
    {
        let ghost before = w@;
        let (x, y) = v[i];
            w.u8(x).u8(y);
        proof {
            lemma_list_bytes_push(spawn_enc(), v@, i as int);
            assert(w@ =~= start + list_bytes(spawn_enc(), v@.take(i + 1)));
        }
        i = i + 1;
    }
    assert(v@.take(v@.len() as int) =~= v@);
}

fn decode_results(r: &mut Reader, count: usize) -> (res: Result<Vec<PlayerResult>, ProtoError>)
    ensures
        final(r)@.0 == old(r)@.0,
        match spec_list(result_parser(), old(r)@.0, old(r)@.1, count as nat) {
            Ok((v, p)) => res matches Ok(out) && out@ == v && final(r)@.1 == p,
            Err(e) => res == Err::<Vec<PlayerResult>, ProtoError>(e),
        },
{
    let ghost buf = r@.0;
    let ghost start = r@.1;
    let mut out: Vec<PlayerResult> = Vec::new();
    let mut i: usize = 0;
    while i < count
        invariant
            i <= count,
            r@.0 == buf,
            buf == old(r)@.0,
            start == old(r)@.1,
            spec_list(result_parser(), buf, start, i as nat) == Ok::<(Seq<PlayerResult>, int), ProtoError>(
                (out@, r@.1),
            ),
        decreases count - i,
    {
        match decode_result(r) {
            Ok(item) => {
                out.push(item);
            },
            Err(e) => {
                proof {
                    lemma_list_err(result_parser(), buf, start, (i + 1) as nat, count as nat);
                }
                return Err(e);
            },
        }
        i = i + 1;
    }
    Ok(out)
}

fn encode_results(v: &Vec<PlayerResult>, w: &mut Writer)
    ensures
        final(w)@ == old(w)@ + list_bytes(result_enc(), v@),
{
    let ghost start = w@;
    let mut i: usize = 0;
    while i < v.len()
        invariant
            i <= v@.len(),
            start == old(w)@,
            w@ == start + list_bytes(result_enc(), v@.take(i as int)),
        decreases v@.len() - i,
    {
        let ghost before = w@;
        let item = v[i];
            w.u8(item.id).u8(item.placement).u16(item.score);
        proof {
            lemma_list_bytes_push(result_enc(), v@, i as int);
            assert(w@ =~= start + list_bytes(result_enc(), v@.take(i + 1)));
        }
        i = i + 1;
    }
    assert(v@.take(v@.len() as int) =~= v@);
}

fn decode_records(r: &mut Reader, count: usize) -> (res: Result<Vec<DeltaRecord>, ProtoError>)
    ensures
        final(r)@.0 == old(r)@.0,
        match spec_list(record_parser(), old(r)@.0, old(r)@.1, count as nat) {
            Ok((v, p)) => res matches Ok(out) && out@ == v && final(r)@.1 == p,
            Err(e) => res == Err::<Vec<DeltaRecord>, ProtoError>(e),
        },
{
    let ghost buf = r@.0;
    let ghost start = r@.1;
    let mut out: Vec<DeltaRecord> = Vec::new();
    let mut i: usize = 0;
    while i < count
        invariant
            i <= count,
            r@.0 == buf,
            buf == old(r)@.0,
            start == old(r)@.1,
            spec_list(record_parser(), buf, start, i as nat) == Ok::<(Seq<DeltaRecord>, int), ProtoError>(
                (out@, r@.1),
            ),
        decreases count - i,
    {
        match DeltaRecord::decode(r) {
            Ok(item) => {
                out.push(item);
            },
            Err(e) => {
                proof {
                    lemma_list_err(record_parser(), buf, start, (i + 1) as nat, count as nat);
                }
                return Err(e);
            },
        }
        i = i + 1;
    }
    Ok(out)
}

fn encode_records(v: &Vec<DeltaRecord>, w: &mut Writer)
    ensures
        final(w)@ == old(w)@ + list_bytes(record_enc(), v@),
{
    let ghost start = w@;
    let mut i: usize = 0;
    while i < v.len()
        invariant
            i <= v@.len(),
            start == old(w)@,
            w@ == start + list_bytes(record_enc(), v@.take(i as int)),
        decreases v@.len() - i,
    {
        let ghost before = w@;
        v[i].encode(w);
        proof {
            lemma_list_bytes_push(record_enc(), v@, i as int);
            assert(w@ =~= start + list_bytes(record_enc(), v@.take(i + 1)));
        }
        i = i + 1;
    }
    assert(v@.take(v@.len() as int) =~= v@);
}

fn decode_spawn(r: &mut Reader) -> (res: Result<(u8, u8), ProtoError>)
    ensures
        final(r)@.0 == old(r)@.0,
        match spec_spawn(old(r)@.0, old(r)@.1) {
            Ok((v, p)) => res == Ok::<(u8, u8), ProtoError>(v) && final(r)@.1 == p,
            Err(e) => res == Err::<(u8, u8), ProtoError>(e),
        },
{
    let x = r.u8()?;
    let y = r.u8()?;
    Ok((x, y))
}

fn decode_result(r: &mut Reader) -> (res: Result<PlayerResult, ProtoError>)
    ensures
        final(r)@.0 == old(r)@.0,
        match spec_result(old(r)@.0, old(r)@.1) {
            Ok((v, p)) => res == Ok::<PlayerResult, ProtoError>(v) && final(r)@.1 == p,
            Err(e) => res == Err::<PlayerResult, ProtoError>(e),
        },
{
    let id = r.u8()?;
    let placement = r.u8()?;
    let score = r.u16()?;
    Ok(PlayerResult { id, placement, score })
}

fn decode_assigned(tick: u32, r: &mut Reader) -> (res: Result<Assigned, ProtoError>)
    ensures
        final(r)@.0 == old(r)@.0,
        match spec_assigned_body(old(r)@.0, old(r)@.1, tick) {
            Ok((v, p)) => res == Ok::<Assigned, ProtoError>(v) && final(r)@.1 == p,
            Err(e) => res == Err::<Assigned, ProtoError>(e),
        },
{
    let protocol_version = r.u8()?;
    let player_id = r.u8()?;
    let tick_rate = r.u8()?;
    let max_players = r.u8()?;
    Ok(Assigned { tick, protocol_version, player_id, tick_rate, max_players })
}

fn decode_lobby_status(tick: u32, r: &mut Reader) -> (res: Result<LobbyStatus, ProtoError>)
    ensures
        final(r)@.0 == old(r)@.0,
        match spec_lobby_body(old(r)@.0, old(r)@.1, tick) {
            Ok((v, p)) => res == Ok::<LobbyStatus, ProtoError>(v) && final(r)@.1 == p,
            Err(e) => res == Err::<LobbyStatus, ProtoError>(e),
        },
{
    let state = LobbyState::from_code(r.u8()?)?;
    let players_connected = r.u8()?;
    let max_players = r.u8()?;
    let slot_mask = r.u8()?;
    let countdown_ticks = r.u16()?;
    Ok(LobbyStatus { tick, state, players_connected, max_players, slot_mask, countdown_ticks })
}

fn decode_match_init(tick: u32, r: &mut Reader) -> (res: Result<MatchInit, ProtoError>)
    ensures
        final(r)@.0 == old(r)@.0,
        match spec_match_init_body(old(r)@.0, old(r)@.1, tick) {
            Ok((v, p)) => res matches Ok(f) && f@ == v && final(r)@.1 == p,
            Err(e) => res == Err::<MatchInit, ProtoError>(e),
        },
{
    let protocol_version = r.u8()?;
    let match_id = r.u32()?;
    let seed = r.u64()?;
    let your_player_id = r.u8()?;
    let player_count = r.u8()?;
    let width = r.u8()?;
    let height = r.u8()?;
    let grid = TileGrid::decode_packed(r, width, height)?;
    let spawns = decode_spawns(r, player_count as usize)?;
    let rules = Rules::decode(r)?;
    Ok(
        MatchInit {
            tick,
            protocol_version,
            match_id,
            seed,
            your_player_id,
            grid,
            spawns,
            rules,
        },
    )
}

fn decode_keyframe(tick: u32, r: &mut Reader) -> (res: Result<Keyframe, ProtoError>)
    ensures
        final(r)@.0 == old(r)@.0,
        match spec_keyframe_body(old(r)@.0, old(r)@.1, tick) {
            Ok((v, p)) => res matches Ok(f) && f@ == v && final(r)@.1 == p,
            Err(e) => res == Err::<Keyframe, ProtoError>(e),
        },
{
    let width = r.u8()?;
    let height = r.u8()?;
    let grid = TileGrid::decode_packed(r, width, height)?;
    let player_count = r.u8()?;
    let players = decode_players(r, player_count as usize)?;
    let bomb_count = r.u16()?;
    let bombs = decode_bombs(r, bomb_count as usize)?;
    let flame_count = r.u16()?;
    let flames = decode_flames(r, flame_count as usize)?;
    let powerup_count = r.u16()?;
    let powerups = decode_powerups(r, powerup_count as usize)?;
    let ticks_remaining = r.u32()?;
    Ok(Keyframe { tick, grid, players, bombs, flames, powerups, ticks_remaining })
}

fn decode_delta(tick: u32, r: &mut Reader) -> (res: Result<Delta, ProtoError>)
    ensures
        final(r)@.0 == old(r)@.0,
        match spec_delta_body(old(r)@.0, old(r)@.1, tick) {
            Ok((v, p)) => res matches Ok(f) && f@ == v && final(r)@.1 == p,
            Err(e) => res == Err::<Delta, ProtoError>(e),
        },
{
    let base_tick = r.u32()?;
    let count = r.u16()?;
    let records = decode_records(r, count as usize)?;
    Ok(Delta { tick, base_tick, records })
}

fn decode_match_end(tick: u32, r: &mut Reader) -> (res: Result<MatchEnd, ProtoError>)
    ensures
        final(r)@.0 == old(r)@.0,
        match spec_match_end_body(old(r)@.0, old(r)@.1, tick) {
            Ok((v, p)) => res matches Ok(f) && f@ == v && final(r)@.1 == p,
            Err(e) => res == Err::<MatchEnd, ProtoError>(e),
        },
{
    let reason = EndReason::from_code(r.u8()?)?;
    let winner = r.u8()?;
    let count = r.u8()?;
    let results = decode_results(r, count as usize)?;
    Ok(MatchEnd { tick, reason, winner, results })
}

fn encode_match_init(f: &MatchInit, w: &mut Writer)
    requires
        f.grid.cells@.len() <= 4 * spec_packed_len(f.grid.width, f.grid.height),
    ensures
        final(w)@ == old(w)@ + match_init_body_bytes(f@),
{
    w.u8(f.protocol_version).u32(f.match_id).u64(f.seed).u8(f.your_player_id).u8(
        f.spawns.len() as u8,
    ).u8(f.grid.width).u8(f.grid.height);
    let ghost a = w@;
    f.grid.encode_packed(w);
    let ghost b = w@;
    encode_spawns(&f.spawns, w);
    let ghost c = w@;
    f.rules.encode(w);
    assert(w@ =~= old(w)@ + match_init_body_bytes(f@));
}

#[verifier::spinoff_prover]
#[verifier::rlimit(40)]
fn encode_keyframe(f: &Keyframe, w: &mut Writer)
    requires
        f.grid.cells@.len() <= 4 * spec_packed_len(f.grid.width, f.grid.height),
    ensures
        final(w)@ == old(w)@ + keyframe_body_bytes(f@),
{
    w.u8(f.grid.width).u8(f.grid.height);
    f.grid.encode_packed(w);
    w.u8(f.players.len() as u8);
    encode_players(&f.players, w);
    w.u16(f.bombs.len() as u16);
    encode_bombs(&f.bombs, w);
    w.u16(f.flames.len() as u16);
    encode_flames(&f.flames, w);
    w.u16(f.powerups.len() as u16);
    encode_powerups(&f.powerups, w);
    w.u32(f.ticks_remaining);
    assert(w@ =~= old(w)@ + keyframe_body_bytes(f@));
}

fn encode_delta(f: &Delta, w: &mut Writer)
    ensures
        final(w)@ == old(w)@ + delta_body_bytes(f@),
{
    w.u32(f.base_tick).u16(f.records.len() as u16);
    encode_records(&f.records, w);
    assert(w@ =~= old(w)@ + delta_body_bytes(f@));
}

fn encode_match_end(f: &MatchEnd, w: &mut Writer)
    ensures
        final(w)@ == old(w)@ + match_end_body_bytes(f@),
{
    w.u8(f.reason.code()).u8(f.winner).u8(f.results.len() as u8);
    encode_results(&f.results, w);
    assert(w@ =~= old(w)@ + match_end_body_bytes(f@));
}

/// Frames whose grids fit the packed length their dimensions announce.
pub open spec fn frame_encodable(f: FrameView) -> bool {
    match f {
        FrameView::MatchInit(x) => x.grid.cells.len() <= 4 * spec_packed_len(
            x.grid.width,
            x.grid.height,
        ),
        FrameView::Keyframe(x) => x.grid.cells.len() <= 4 * spec_packed_len(
            x.grid.width,
            x.grid.height,
        ),
        _ => true,
    }
}

impl ServerFrame {
    pub fn frame_type(&self) -> (t: u8)
        ensures
            t == frame_tag(self@),
    {
        match self {
            ServerFrame::Assigned(_) => frame_type::ASSIGNED,
            ServerFrame::LobbyStatus(_) => frame_type::LOBBY_STATUS,
            ServerFrame::MatchInit(_) => frame_type::MATCH_INIT,
            ServerFrame::Keyframe(_) => frame_type::KEYFRAME,
            ServerFrame::Delta(_) => frame_type::DELTA,
            ServerFrame::MatchEnd(_) => frame_type::MATCH_END,
        }
    }

    pub fn tick(&self) -> (t: u32)
        ensures
            t == frame_tick(self@),
    {
        match self {
            ServerFrame::Assigned(f) => f.tick,
            ServerFrame::LobbyStatus(f) => f.tick,
            ServerFrame::MatchInit(f) => f.tick,
            ServerFrame::Keyframe(f) => f.tick,
            ServerFrame::Delta(f) => f.tick,
            ServerFrame::MatchEnd(f) => f.tick,
        }
    }

    pub fn encode(&self) -> (out: Vec<u8>)
        requires
            frame_encodable(self@),
        ensures
            out@ == frame_bytes(self@),
    {
        let mut w = Writer::new();
        w.u8(self.frame_type()).u32(self.tick());
        let ghost head = w@;
        match self {
            ServerFrame::Assigned(f) => {
                w.u8(f.protocol_version).u8(f.player_id).u8(f.tick_rate).u8(f.max_players);
            },
            ServerFrame::LobbyStatus(f) => {
                w.u8(f.state.code()).u8(f.players_connected).u8(f.max_players).u8(f.slot_mask).u16(
                    f.countdown_ticks,
                );
            },
            ServerFrame::MatchInit(f) => {
                encode_match_init(f, &mut w);
            },
            ServerFrame::Keyframe(f) => {
                encode_keyframe(f, &mut w);
            },
            ServerFrame::Delta(f) => {
                encode_delta(f, &mut w);
            },
            ServerFrame::MatchEnd(f) => {
                encode_match_end(f, &mut w);
            },
        }
        assert(w@ =~= frame_bytes(self@));
        w.finish()
    }

    pub fn decode(buf: &[u8]) -> (res: Result<Self, ProtoError>)
        ensures
            match spec_frame(buf@) {
                Ok(v) => res matches Ok(f) && f@ == v,
                Err(e) => res == Err::<Self, ProtoError>(e),
            },
    {
        let mut r = Reader::new(buf);
        let ty = r.u8()?;
        let tick = r.u32()?;
        if ty == frame_type::ASSIGNED {
            Ok(ServerFrame::Assigned(decode_assigned(tick, &mut r)?))
        } else if ty == frame_type::LOBBY_STATUS {
            Ok(ServerFrame::LobbyStatus(decode_lobby_status(tick, &mut r)?))
        } else if ty == frame_type::MATCH_INIT {
            Ok(ServerFrame::MatchInit(decode_match_init(tick, &mut r)?))
        } else if ty == frame_type::KEYFRAME {
            Ok(ServerFrame::Keyframe(decode_keyframe(tick, &mut r)?))
        } else if ty == frame_type::DELTA {
            Ok(ServerFrame::Delta(decode_delta(tick, &mut r)?))
        } else if ty == frame_type::MATCH_END {
            Ok(ServerFrame::MatchEnd(decode_match_end(tick, &mut r)?))
        } else {
            Err(ProtoError::UnknownFrame(ty))
        }
    }
}

} // verus!
