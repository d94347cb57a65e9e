//! Shared value types: what a tile, a direction, a power-up and the rules are.
//!
//! These are the vocabulary of both the wire format and the simulation, so a
//! bot needs only this module to speak to the server.
use vstd::prelude::*;

use super::codec::{
    le16, le32, spec_take, spec_u16, spec_u32, spec_u8, ProtoError, Reader,
    Writer,
};

verus! {

/// What occupies a cell of the board. Two bits on the wire.
#[derive(Debug, Clone, Copy, PartialEq, Eq, Hash, Structural)]
pub enum Tile {
    /// Walkable.
    Empty,
    /// Indestructible wall: the border ring and the interior pillar lattice.
    Solid,
    /// Destructible block. Blocks movement and stops a blast.
    Soft,
}

pub open spec fn tile_code(t: Tile) -> u8 {
    match t {
        Tile::Empty => 0,
        Tile::Solid => 1,
        Tile::Soft => 2,
    }
}

/// The tile a code names, if any.
pub open spec fn tile_of(code: u8) -> Option<Tile> {
    if code == 0 {
        Some(Tile::Empty)
    } else if code == 1 {
        Some(Tile::Solid)
    } else if code == 2 {
        Some(Tile::Soft)
    } else {
        None
    }
}

pub open spec fn spec_tile_from_code(code: u8) -> Result<Tile, ProtoError> {
    match tile_of(code) {
        Some(t) => Ok(t),
        None => Err(ProtoError::InvalidValue { field: "tile", value: code as u32 }),
    }
}

impl Tile {
    pub fn from_code(code: u8) -> (res: Result<Tile, ProtoError>)
        ensures
            res == spec_tile_from_code(code),
    {
        match code {
            0 => Ok(Tile::Empty),
            1 => Ok(Tile::Solid),
            2 => Ok(Tile::Soft),
            other => Err(ProtoError::InvalidValue { field: "tile", value: other as u32 }),
        }
    }

    /// The tile's two-bit wire code.
    pub fn code(self) -> (c: u8)
        ensures
            c == tile_code(self),
            c < 3,
    {
        match self {
            Tile::Empty => 0,
            Tile::Solid => 1,
            Tile::Soft => 2,
        }
    }

    /// Can a player walk into this tile? (Bombs are entities, not tiles.)
    pub fn is_walkable(self) -> (b: bool)
        ensures
            b == (self == Tile::Empty),
    {
        match self {
            Tile::Empty => true,
            _ => false,
        }
    }

    /// Does a blast stop here? `Soft` stops the blast and is destroyed by it.
    pub fn blocks_blast(self) -> (b: bool)
        ensures
            b == (self != Tile::Empty),
    {
        match self {
            Tile::Empty => false,
            _ => true,
        }
    }
}

/// Facing. Y grows downward.
#[derive(Debug, Clone, Copy, PartialEq, Eq, Hash, Structural)]
pub enum Direction {
    Down,
    Up,
    Left,
    Right,
}

pub open spec fn direction_code(d: Direction) -> u8 {
    match d {
        Direction::Down => 0,
        Direction::Up => 1,
        Direction::Left => 2,
        Direction::Right => 3,
    }
}

pub open spec fn direction_of(code: u8) -> Option<Direction> {
    if code == 0 {
        Some(Direction::Down)
    } else if code == 1 {
        Some(Direction::Up)
    } else if code == 2 {
        Some(Direction::Left)
    } else if code == 3 {
        Some(Direction::Right)
    } else {
        None
    }
}

pub open spec fn spec_direction_from_code(code: u8) -> Result<Direction, ProtoError> {
    match direction_of(code) {
        Some(d) => Ok(d),
        None => Err(ProtoError::InvalidValue { field: "direction", value: code as u32 }),
    }
}

/// The unit step of a direction, in cell coordinates.
pub open spec fn spec_delta(d: Direction) -> (i32, i32) {
    match d {
        Direction::Down => (0i32, 1i32),
        Direction::Up => (0i32, -1i32),
        Direction::Left => (-1i32, 0i32),
        Direction::Right => (1i32, 0i32),
    }
}

/// The order `Direction::ALL` lists the directions in.
pub open spec fn direction_at(i: int) -> Direction {
    if i == 0 {
        Direction::Down
    } else if i == 1 {
        Direction::Up
    } else if i == 2 {
        Direction::Left
    } else {
        Direction::Right
    }
}

impl Direction {
    pub const ALL: [Direction; 4] = [
        Direction::Down,
        Direction::Up,
        Direction::Left,
        Direction::Right,
    ];

    pub fn from_code(code: u8) -> (res: Result<Direction, ProtoError>)
        ensures
            res == spec_direction_from_code(code),
    {
        match code {
            0 => Ok(Direction::Down),
            1 => Ok(Direction::Up),
            2 => Ok(Direction::Left),
            3 => Ok(Direction::Right),
            other => Err(ProtoError::InvalidValue { field: "direction", value: other as u32 }),
        }
    }

    /// The direction's wire code.
    pub fn code(self) -> (c: u8)
        ensures
            c == direction_code(self),
    {
        match self {
            Direction::Down => 0,
            Direction::Up => 1,
            Direction::Left => 2,
            Direction::Right => 3,
        }
    }

    /// Unit step in cell coordinates. Y grows downward.
    pub fn delta(self) -> (d: (i32, i32))
        ensures
            d == spec_delta(self),
    {
        match self {
            Direction::Down => (0, 1),
            Direction::Up => (0, -1),
            Direction::Left => (-1, 0),
            Direction::Right => (1, 0),
        }
    }

    /// The `i`th entry of [`Direction::ALL`].
    pub fn at(i: usize) -> (d: Direction)
        requires
            i < 4,
        ensures
            d == direction_at(i as int),
    {
        if i == 0 {
            Direction::Down
        } else if i == 1 {
            Direction::Up
        } else if i == 2 {
            Direction::Left
        } else {
            Direction::Right
        }
    }
}

/// What a power-up grants when walked over.
#[derive(Debug, Clone, Copy, PartialEq, Eq, Hash, Structural)]
pub enum PowerupKind {
    /// One more concurrent bomb.
    ExtraBomb,
    /// One more cell of blast radius, capped at `max_flame`.
    Flame,
    /// One more speed level, capped at `max_speed`.
    Speed,
}

pub open spec fn powerup_code(k: PowerupKind) -> u8 {
    match k {
        PowerupKind::ExtraBomb => 0,
        PowerupKind::Flame => 1,
        PowerupKind::Speed => 2,
    }
}

pub open spec fn powerup_of(code: u8) -> Option<PowerupKind> {
    if code == 0 {
        Some(PowerupKind::ExtraBomb)
    } else if code == 1 {
        Some(PowerupKind::Flame)
    } else if code == 2 {
        Some(PowerupKind::Speed)
    } else {
        None
    }
}

pub open spec fn spec_powerup_from_code(code: u8) -> Result<PowerupKind, ProtoError> {
    match powerup_of(code) {
        Some(k) => Ok(k),
        None => Err(ProtoError::InvalidValue { field: "powerup_kind", value: code as u32 }),
    }
}

impl PowerupKind {
    pub const ALL: [PowerupKind; 3] = [
        PowerupKind::ExtraBomb,
        PowerupKind::Flame,
        PowerupKind::Speed,
    ];

    pub fn from_code(code: u8) -> (res: Result<PowerupKind, ProtoError>)
        ensures
            res == spec_powerup_from_code(code),
    {
        match code {
            0 => Ok(PowerupKind::ExtraBomb),
            1 => Ok(PowerupKind::Flame),
            2 => Ok(PowerupKind::Speed),
            other => Err(ProtoError::InvalidValue { field: "powerup_kind", value: other as u32 }),
        }
    }

    /// The kind's wire code.
    pub fn code(self) -> (c: u8)
        ensures
            c == powerup_code(self),
    {
        match self {
            PowerupKind::ExtraBomb => 0,
            PowerupKind::Flame => 1,
            PowerupKind::Speed => 2,
        }
    }
}

/// The rules constants a bot needs in order to reason about timing.
///
/// Shipped verbatim in `MATCH_INIT`, so a bot never has to hardcode them.
#[derive(Debug, Clone, Copy, PartialEq, Eq, Structural)]
pub struct Rules {
    /// Ticks from placement to detonation.
    pub bomb_fuse_ticks: u16,
    /// Ticks a flame cell stays lethal.
    pub flame_duration_ticks: u16,
    /// Ticks to cross one cell at speed level 0.
    pub ticks_per_cell: u8,
    /// Ticks subtracted from `ticks_per_cell` per speed level.
    pub speed_step_ticks: u8,
    pub start_bombs: u8,
    pub start_flame: u8,
    pub max_flame: u8,
    pub max_speed: u8,
    /// Chance in percent that a destroyed soft block drops a power-up.
    pub powerup_chance_pct: u8,
    /// Total match length in ticks.
    pub round_time_ticks: u32,
    /// Tick at which the board starts closing in. `u32::MAX` disables it.
    pub sudden_death_tick: u32,
}

/// Ticks to cross one cell at a speed level: the base cost less the speed
/// bonus, never below 1.
pub open spec fn spec_ticks_per_cell_at(rules: Rules, speed: u8) -> u8 {
    let penalty = if rules.speed_step_ticks * speed > 255 {
        255
    } else {
        rules.speed_step_ticks * speed
    };
    let left = if rules.ticks_per_cell > penalty {
        rules.ticks_per_cell - penalty
    } else {
        0
    };
    if left < 1 {
        1
    } else {
        left as u8
    }
}

/// The rules block as laid out on the wire.
pub open spec fn rules_bytes(r: Rules) -> Seq<u8> {
    le16(r.bomb_fuse_ticks) + le16(r.flame_duration_ticks) + seq![
        r.ticks_per_cell,
        r.speed_step_ticks,
        r.start_bombs,
        r.start_flame,
        r.max_flame,
        r.max_speed,
        r.powerup_chance_pct,
    ] + le32(r.round_time_ticks) + le32(r.sudden_death_tick)
}

/// Reading a rules block at `pos`, field by field.
pub open spec fn spec_rules(buf: Seq<u8>, pos: int) -> Result<(Rules, int), ProtoError> {
    match spec_u16(buf, pos) {
        Err(e) => Err(e),
        Ok((bomb_fuse_ticks, p1)) => {
            match spec_u16(buf, p1) {
                Err(e) => Err(e),
                Ok((flame_duration_ticks, p2)) => {
                    match spec_u8(buf, p2) {
                        Err(e) => Err(e),
                        Ok((ticks_per_cell, p3)) => {
                            match spec_u8(buf, p3) {
                                Err(e) => Err(e),
                                Ok((speed_step_ticks, p4)) => {
                                    match spec_u8(buf, p4) {
                                        Err(e) => Err(e),
                                        Ok((start_bombs, p5)) => {
                                            match spec_u8(buf, p5) {
                                                Err(e) => Err(e),
                                                Ok((start_flame, p6)) => {
                                                    match spec_u8(buf, p6) {
                                                        Err(e) => Err(e),
                                                        Ok((max_flame, p7)) => {
                                                            match spec_u8(buf, p7) {
                                                                Err(e) => Err(e),
                                                                Ok((max_speed, p8)) => {
                                                                    match spec_u8(buf, p8) {
                                                                        Err(e) => Err(e),
                                                                        Ok((powerup_chance_pct, p9)) => {
                                                                            match spec_u32(buf, p9) {
                                                                                Err(e) => Err(e),
                                                                                Ok((round_time_ticks, p10)) => {
                                                                                    match spec_u32(buf, p10) {
                                                                                        Err(e) => Err(e),
                                                                                        Ok((sudden_death_tick, p11)) => {
                                                                                            Ok((Rules { bomb_fuse_ticks, flame_duration_ticks, ticks_per_cell, speed_step_ticks, start_bombs, start_flame, max_flame, max_speed, powerup_chance_pct, round_time_ticks, sudden_death_tick }, p11))
                                                                                        },
                                                                                    }
                                                                                },
                                                                            }
                                                                        },
                                                                    }
                                                                },
                                                            }
                                                        },
                                                    }
                                                },
                                            }
                                        },
                                    }
                                },
                            }
                        },
                    }
                },
            }
        },
    }

}

impl Rules {
    pub const ENCODED_LEN: usize = 2 + 2 + 1 + 1 + 1 + 1 + 1 + 1 + 1 + 4 + 4;

    /// Ticks to cross one cell at a given speed level, never below 1.
    pub fn ticks_per_cell_at(&self, speed: u8) -> (t: u8)
        ensures
            t == spec_ticks_per_cell_at(*self, speed),
            t >= 1,
    {
        let step = self.speed_step_ticks;
        assert((step as int) * (speed as int) <= 255 * 255) by (nonlinear_arith)
            requires
                step <= 255,
                speed <= 255,
        ;
        let product: u16 = step as u16 * speed as u16;
        let penalty: u8 = if product > 255 {
            255
        } else {
            product as u8
        };
        let left: u8 = if self.ticks_per_cell > penalty {
            self.ticks_per_cell - penalty
        } else {
            0
        };
        if left < 1 {
            1
        } else {
            left
        }
    }

    pub fn encode(&self, w: &mut Writer)
        ensures
            final(w)@ == old(w)@ + rules_bytes(*self),
    {
        w.u16(self.bomb_fuse_ticks).u16(self.flame_duration_ticks).u8(self.ticks_per_cell).u8(
            self.speed_step_ticks,
        ).u8(self.start_bombs).u8(self.start_flame).u8(self.max_flame).u8(self.max_speed).u8(
            self.powerup_chance_pct,
        ).u32(self.round_time_ticks).u32(self.sudden_death_tick);
        assert(w@ =~= old(w)@ + rules_bytes(*self));
    }

    pub fn decode(r: &mut Reader) -> (res: Result<Rules, ProtoError>)
        ensures
            final(r)@.0 == old(r)@.0,
            match spec_rules(old(r)@.0, old(r)@.1) {
                Ok((v, p)) => res == Ok::<Rules, ProtoError>(v) && final(r)@.1 == p,
                Err(e) => res == Err::<Rules, ProtoError>(e),
            },
    {
        let bomb_fuse_ticks = r.u16()?;
        let flame_duration_ticks = r.u16()?;
        let ticks_per_cell = r.u8()?;
        let speed_step_ticks = r.u8()?;
        let start_bombs = r.u8()?;
        let start_flame = r.u8()?;
        let max_flame = r.u8()?;
        let max_speed = r.u8()?;
        let powerup_chance_pct = r.u8()?;
        let round_time_ticks = r.u32()?;
        let sudden_death_tick = r.u32()?;
        Ok(
            Rules {
                bomb_fuse_ticks,
                flame_duration_ticks,
                ticks_per_cell,
                speed_step_ticks,
                start_bombs,
                start_flame,
                max_flame,
                max_speed,
                powerup_chance_pct,
                round_time_ticks,
                sudden_death_tick,
            },
        )
    }
}

pub open spec fn default_rules() -> Rules {
    Rules {
        bomb_fuse_ticks: 120,
        flame_duration_ticks: 30,
        ticks_per_cell: 8,
        speed_step_ticks: 1,
        start_bombs: 1,
        start_flame: 1,
        max_flame: 6,
        max_speed: 3,
        powerup_chance_pct: 30,
        round_time_ticks: 10800,
        sudden_death_tick: 7200,
    }
}

impl Default for Rules {
    fn default() -> (r: Self)
        ensures
            r == default_rules(),
    {
        Rules {
            bomb_fuse_ticks: 120,
            flame_duration_ticks: 30,
            ticks_per_cell: 8,
            speed_step_ticks: 1,
            start_bombs: 1,
            start_flame: 1,
            max_flame: 6,
            max_speed: 3,
            powerup_chance_pct: 30,
            round_time_ticks: 180 * 60,
            sudden_death_tick: 120 * 60,
        }
    }
}

// ---------------------------------------------------------------------------
// The board
// ---------------------------------------------------------------------------

/// The board's geometry. Tiles change only when soft blocks are destroyed or
/// sudden death closes a cell.
///
/// Packed two bits per cell on the wire, row-major, low bits first.
#[derive(Debug, Clone, PartialEq, Eq)]
pub struct TileGrid {
    pub width: u8,
    pub height: u8,
    pub cells: Vec<Tile>,
}

/// A board as a mathematical value.
pub struct GridView {
    pub width: u8,
    pub height: u8,
    pub cells: Seq<Tile>,
}

impl View for TileGrid {
    type V = GridView;

    open spec fn view(&self) -> GridView {
        GridView { width: self.width, height: self.height, cells: self.cells@ }
    }
}

impl GridView {
    /// One tile per cell.
    pub open spec fn wf(self) -> bool {
        self.cells.len() == self.width * self.height
    }

    pub open spec fn in_bounds(self, x: int, y: int) -> bool {
        0 <= x < self.width && 0 <= y < self.height
    }

    pub open spec fn index(self, x: int, y: int) -> int {
        y * self.width + x
    }

    pub open spec fn at(self, x: int, y: int) -> Tile {
        self.cells[self.index(x, y)]
    }

    /// Out-of-bounds cells read as `Solid`.
    pub open spec fn get_or_solid(self, x: int, y: int) -> Tile {
        if self.in_bounds(x, y) {
            self.at(x, y)
        } else {
            Tile::Solid
        }
    }
}

/// An on-board cell's index falls inside the cells.
pub proof fn lemma_index_in_range(g: GridView, x: int, y: int)
    requires
        g.wf(),
        g.in_bounds(x, y),
    ensures
        0 <= g.index(x, y) < g.cells.len(),
{
    lemma_cell_index(g.width as int, g.height as int, x, y, x, y);
}

/// Row-major cell numbers fall inside the board, and distinct cells get
/// distinct numbers.
pub proof fn lemma_cell_index(w: int, h: int, x1: int, y1: int, x2: int, y2: int)
    requires
        0 <= x1 < w,
        0 <= y1 < h,
        0 <= x2 < w,
        0 <= y2 < h,
    ensures
        0 <= y1 * w + x1 < w * h,
        (y1 * w + x1 == y2 * w + x2) <==> (x1 == x2 && y1 == y2),
{
    assert(0 <= y1 * w + x1 < w * h) by (nonlinear_arith)
        requires
            0 <= x1 < w,
            0 <= y1 < h,
    ;
    if y1 < y2 {
        assert(y1 * w + x1 < y2 * w + x2) by (nonlinear_arith)
            requires
                y1 < y2,
                0 <= x1 < w,
                0 <= x2,
        ;
    } else if y2 < y1 {
        assert(y2 * w + x2 < y1 * w + x1) by (nonlinear_arith)
            requires
                y2 < y1,
                0 <= x2 < w,
                0 <= x1,
        ;
    }
}

/// Two bytes multiply to at most 255 * 255.
pub proof fn lemma_mul_u8(a: u8, b: u8)
    ensures
        0 <= a * b <= 65025,
{
    assert(0 <= a * b <= 65025) by (nonlinear_arith)
        requires
            a <= 255,
            b <= 255,
    ;
}

/// Bytes needed for a packed `width` x `height` board.
pub open spec fn spec_packed_len(width: u8, height: u8) -> int {
    (width * height + 3) / 4
}

/// The two-bit code of cell `i`, or 0 past the end.
pub open spec fn cell_code(cells: Seq<Tile>, i: int) -> u8 {
    if 0 <= i < cells.len() {
        tile_code(cells[i])
    } else {
        0
    }
}

/// Packed byte `j`: cells `4j .. 4j+4`, lowest bits first.
pub open spec fn packed_byte(cells: Seq<Tile>, j: int) -> u8 {
    cell_code(cells, 4 * j) | (cell_code(cells, 4 * j + 1) << 2u8) | (cell_code(cells, 4 * j + 2)
        << 4u8) | (cell_code(cells, 4 * j + 3) << 6u8)
}

pub open spec fn packed_cells(cells: Seq<Tile>, len: int) -> Seq<u8> {
    Seq::new(len as nat, |j: int| packed_byte(cells, j))
}

/// The two-bit code stored for cell `i` in packed bytes.
pub open spec fn unpacked_code(bytes: Seq<u8>, i: int) -> u8 {
    (bytes[i / 4] >> (((i % 4) * 2) as u8)) & 3u8
}

/// Reading a packed `width` x `height` board at `pos`.
pub open spec fn spec_grid(buf: Seq<u8>, pos: int, width: u8, height: u8) -> Result<
    (GridView, int),
    ProtoError,
> {
    match spec_take(buf, pos, spec_packed_len(width, height)) {
        Err(e) => Err(e),
        Ok(p) => {
            let bytes = buf.subrange(pos, p);
            let count = width * height;
            if exists|i: int| 0 <= i < count && #[trigger] unpacked_code(bytes, i) == 3 {
                Err(ProtoError::InvalidValue { field: "tile", value: 3 })
            } else {
                Ok(
                    (
                        GridView {
                            width,
                            height,
                            cells: Seq::new(
                                count as nat,
                                |i: int| tile_of(unpacked_code(bytes, i)).unwrap(),
                            ),
                        },
                        p,
                    ),
                )
            }
        },
    }
}

proof fn lemma_unpack_byte(c0: u8, c1: u8, c2: u8, c3: u8)
    requires
        c0 < 4,
        c1 < 4,
        c2 < 4,
        c3 < 4,
    ensures
        (c0 | (c1 << 2u8) | (c2 << 4u8) | (c3 << 6u8)) >> 0u8 & 3u8 == c0,
        (c0 | (c1 << 2u8) | (c2 << 4u8) | (c3 << 6u8)) >> 2u8 & 3u8 == c1,
        (c0 | (c1 << 2u8) | (c2 << 4u8) | (c3 << 6u8)) >> 4u8 & 3u8 == c2,
        (c0 | (c1 << 2u8) | (c2 << 4u8) | (c3 << 6u8)) >> 6u8 & 3u8 == c3,
{
    assert((c0 | (c1 << 2u8) | (c2 << 4u8) | (c3 << 6u8)) >> 0u8 & 3u8 == c0) by (bit_vector)
        requires
            c0 < 4,
            c1 < 4,
            c2 < 4,
            c3 < 4,
    ;
    assert((c0 | (c1 << 2u8) | (c2 << 4u8) | (c3 << 6u8)) >> 2u8 & 3u8 == c1) by (bit_vector)
        requires
            c0 < 4,
            c1 < 4,
            c2 < 4,
            c3 < 4,
    ;
    assert((c0 | (c1 << 2u8) | (c2 << 4u8) | (c3 << 6u8)) >> 4u8 & 3u8 == c2) by (bit_vector)
        requires
            c0 < 4,
            c1 < 4,
            c2 < 4,
            c3 < 4,
    ;
    assert((c0 | (c1 << 2u8) | (c2 << 4u8) | (c3 << 6u8)) >> 6u8 & 3u8 == c3) by (bit_vector)
        requires
            c0 < 4,
            c1 < 4,
            c2 < 4,
            c3 < 4,
    ;
}

/// Unpacking packed cells gives each cell's code back.
pub proof fn lemma_unpack_packed(cells: Seq<Tile>, len: int, i: int)
    requires
        0 <= i < cells.len(),
        cells.len() <= 4 * len,
    ensures
        unpacked_code(packed_cells(cells, len), i) == tile_code(cells[i]),
{
    let j = i / 4;
    let k = i % 4;
    assert(i == 4 * j + k);
    lemma_unpack_byte(
        cell_code(cells, 4 * j),
        cell_code(cells, 4 * j + 1),
        cell_code(cells, 4 * j + 2),
        cell_code(cells, 4 * j + 3),
    );
}

/// Every tile's code reads back as that tile.
pub proof fn lemma_tile_code_roundtrip(t: Tile)
    ensures
        tile_of(tile_code(t)) == Some(t),
{
}

/// Decoding what `encode_packed` wrote gives the same board back.
pub proof fn lemma_grid_roundtrip(g: GridView, buf: Seq<u8>, pos: int)
    requires
        g.wf(),
        0 <= pos,
        pos + spec_packed_len(g.width, g.height) <= buf.len(),
        buf.subrange(pos, pos + spec_packed_len(g.width, g.height)) == packed_cells(
            g.cells,
            spec_packed_len(g.width, g.height),
        ),
    ensures
        spec_grid(buf, pos, g.width, g.height) == Ok::<(GridView, int), ProtoError>(
            (g, pos + spec_packed_len(g.width, g.height)),
        ),
{
    let len = spec_packed_len(g.width, g.height);
    let bytes = buf.subrange(pos, pos + len);
    let count = g.width * g.height;
    assert forall|i: int| 0 <= i < count implies #[trigger] unpacked_code(bytes, i)
        == tile_code(g.cells[i]) by {
        lemma_unpack_packed(g.cells, len, i);
    }
    assert(!exists|i: int| 0 <= i < count && #[trigger] unpacked_code(bytes, i) == 3);
    let cells = Seq::new(count as nat, |i: int| tile_of(unpacked_code(bytes, i)).unwrap());
    assert(cells =~= g.cells);
}

impl TileGrid {
    pub fn new(width: u8, height: u8) -> (g: Self)
        ensures
            g.width == width,
            g.height == height,
            g.cells@ == Seq::new((width * height) as nat, |i: int| Tile::Empty),
    {
        proof {
            lemma_mul_u8(width, height);
        }
        let n: usize = width as usize * height as usize;
        let mut cells: Vec<Tile> = Vec::new();
        let mut i: usize = 0;
        while i < n
            invariant
                n == width * height,
                i <= n,
                cells@ == Seq::new(i as nat, |k: int| Tile::Empty),
            decreases n - i,
        {
            cells.push(Tile::Empty);
            i = i + 1;
            assert(cells@ =~= Seq::new(i as nat, |k: int| Tile::Empty));
        }
        TileGrid { width, height, cells }
    }

    pub fn packed_len(width: u8, height: u8) -> (n: usize)
        ensures
            n == spec_packed_len(width, height),
    {
        proof {
            lemma_mul_u8(width, height);
        }
        (width as usize * height as usize + 3) / 4
    }

    pub fn in_bounds(&self, x: i32, y: i32) -> (b: bool)
        ensures
            b == self@.in_bounds(x as int, y as int),
    {
        x >= 0 && y >= 0 && x < self.width as i32 && y < self.height as i32
    }

    fn index(&self, x: u8, y: u8) -> (i: usize)
        requires
            self@.wf(),
            self@.in_bounds(x as int, y as int),
        ensures
            i == self@.index(x as int, y as int),
            i < self.cells@.len(),
    {
        proof {
            lemma_index_in_range(self@, x as int, y as int);
            lemma_mul_u8(self.width, self.height);
        }
        y as usize * self.width as usize + x as usize
    }

    pub fn get(&self, x: u8, y: u8) -> (t: Tile)
        requires
            self@.wf(),
            self@.in_bounds(x as int, y as int),
        ensures
            t == self@.at(x as int, y as int),
    {
        self.cells[self.index(x, y)]
    }

    /// Out-of-bounds reads as `Solid`, so callers can probe past the border.
    pub fn get_or_solid(&self, x: i32, y: i32) -> (t: Tile)
        requires
            self@.wf(),
        ensures
            t == self@.get_or_solid(x as int, y as int),
    {
        if self.in_bounds(x, y) {
            self.get(x as u8, y as u8)
        } else {
            Tile::Solid
        }
    }

    pub fn set(&mut self, x: u8, y: u8, tile: Tile)
        requires
            old(self)@.wf(),
            old(self)@.in_bounds(x as int, y as int),
        ensures
            final(self).width == old(self).width,
            final(self).height == old(self).height,
            final(self)@.wf(),
            final(self)@.cells == old(self)@.cells.update(
                old(self)@.index(x as int, y as int),
                tile,
            ),
            forall|cx: int, cy: int|
                #![trigger final(self)@.at(cx, cy)]
                old(self)@.in_bounds(cx, cy) ==> final(self)@.at(cx, cy) == if cx == x && cy
                    == y {
                    tile
                } else {
                    old(self)@.at(cx, cy)
                },
    {
        let i = self.index(x, y);
        let ghost before = self@;
        self.cells.set(i, tile);
        proof {
            assert forall|cx: int, cy: int| #![trigger self@.at(cx, cy)] before.in_bounds(cx, cy)
                implies self@.at(cx, cy) == if cx == x && cy == y {
                tile
            } else {
                before.at(cx, cy)
            } by {
                lemma_cell_index(
                    before.width as int,
                    before.height as int,
                    cx,
                    cy,
                    x as int,
                    y as int,
                );
            }
        }
    }

    pub fn encode_packed(&self, w: &mut Writer)
        requires
            self.cells@.len() <= 4 * spec_packed_len(self.width, self.height),
        ensures
            final(w)@ == old(w)@ + packed_cells(
                self.cells@,
                spec_packed_len(self.width, self.height),
            ),
    {
        let len = Self::packed_len(self.width, self.height);
        proof {
            lemma_mul_u8(self.width, self.height);
        }
        let n = self.cells.len();
        let mut packed: Vec<u8> = Vec::new();
        let mut j: usize = 0;
        while j < len
            invariant
                len == spec_packed_len(self.width, self.height),
                len <= 16257,
                n == self.cells@.len(),
                j <= len,
                packed@ == packed_cells(self.cells@, j as int),
            decreases len - j,
        {
            let c0 = if 4 * j < n {
                self.cells[4 * j].code()
            } else {
                0
            };
            let c1 = if 4 * j + 1 < n {
                self.cells[4 * j + 1].code()
            } else {
                0
            };
            let c2 = if 4 * j + 2 < n {
                self.cells[4 * j + 2].code()
            } else {
                0
            };
            let c3 = if 4 * j + 3 < n {
                self.cells[4 * j + 3].code()
            } else {
                0
            };
            packed.push(c0 | (c1 << 2u8) | (c2 << 4u8) | (c3 << 6u8));
            j = j + 1;
            assert(packed@ =~= packed_cells(self.cells@, j as int));
        }
        w.bytes(packed.as_slice());
    }

    pub fn decode_packed(r: &mut Reader, width: u8, height: u8) -> (res: Result<Self, ProtoError>)
        ensures
            final(r)@.0 == old(r)@.0,
            match spec_grid(old(r)@.0, old(r)@.1, width, height) {
                Ok((g, p)) => res matches Ok(grid) && grid@ == g && final(r)@.1 == p,
                Err(e) => res == Err::<Self, ProtoError>(e),
            },
    {
        proof {
            lemma_mul_u8(width, height);
        }
        let count: usize = width as usize * height as usize;
        let plen = Self::packed_len(width, height);
        let ghost pos = r@.1;
        let packed = r.bytes(plen)?;
        let ghost bytes = packed@;
        let mut cells: Vec<Tile> = Vec::new();
        let mut i: usize = 0;
        while i < count
            invariant
                count == width * height,
                plen == spec_packed_len(width, height),
                r@.0 == old(r)@.0,
                0 <= pos <= pos + plen,
                r@.1 == pos + plen <= r@.0.len(),
                pos == old(r)@.1,
                spec_take(old(r)@.0, pos, plen as int) == Ok::<int, ProtoError>(pos + plen),
                bytes == old(r)@.0.subrange(pos, pos + plen),
                packed@.len() == plen,
                bytes == packed@,
                i <= count,
                cells@.len() == i,
                forall|k: int| 0 <= k < i ==> #[trigger] unpacked_code(bytes, k) != 3,
                forall|k: int|
                    0 <= k < i ==> #[trigger] cells@[k] == tile_of(unpacked_code(bytes, k)).unwrap(),
            decreases count - i,
        {
            let byte = packed[i / 4];
            let shift = ((i % 4) * 2) as u8;
            let code = (byte >> shift) & 0b11u8;
            assert(code <= 3) by (bit_vector)
                requires
                    code == (byte >> shift) & 0b11u8,
            ;
            assert(code == unpacked_code(bytes, i as int));
            let tile = match Tile::from_code(code) {
                Ok(t) => t,
                Err(e) => {
                    return Err(e);
                },
            };
            cells.push(tile);
            i = i + 1;
        }
        let ghost n = count as nat;
        assert(cells@ =~= Seq::new(n, |k: int| tile_of(unpacked_code(bytes, k)).unwrap()));
        Ok(TileGrid { width, height, cells })
    }
}

} // verus!
