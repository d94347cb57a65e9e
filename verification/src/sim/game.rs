//! The match state and the tick that advances it.
//!
//! `step` is a pure function of the state and the tick's inputs (the state
//! carries its own seeded generator), and its phase order is the rules:
//! flames age, bombs detonate, bombs are placed and players move, power-ups
//! are picked up, players in fire die, sudden death closes a cell, and the end
//! of the match is checked.
use std::collections::VecDeque;
use vstd::prelude::*;

use crate::proto::client::{spec_movement, spec_places_bomb, Action};
use crate::proto::server::{
    BombSnapshot, DeltaRecord, EndReason, FlameCell, Keyframe, PlayerResult, PlayerSnapshot,
    PowerupSnapshot, NO_PLAYER,
};
use crate::proto::types::{
    direction_at, direction_code, lemma_cell_index, lemma_mul_u8, powerup_code, spec_delta,
    spec_ticks_per_cell_at, tile_code, Direction, GridView, PowerupKind, Rules, Tile, TileGrid,
};

use super::map::GeneratedMap;
use super::reach::{count_false, lemma_count_false_set};
use super::rng::{pcg_below, pcg_ratio, pcg_seed, roll_below, roll_ratio, seeded, Pcg};

verus! {

/// Score awarded for blowing up a soft block.
pub const SCORE_BLOCK: u16 = 10;

/// Score awarded for killing another player.
pub const SCORE_KILL: u16 = 100;

/// Score awarded for surviving to the end of the match.
pub const SCORE_WIN: u16 = 500;

/// During sudden death, one more cell turns solid every this many ticks.
pub const SUDDEN_DEATH_PERIOD: u32 = 6;

/// Mixed into the match seed so the tick generator's stream is independent
/// of the map generator's.
pub const TICK_SEED_MIX: u64 = 0x9E37_79B9_7F4A_7C15;

#[derive(Debug, Clone, Copy, PartialEq, Eq)]
pub struct Player {
    pub id: u8,
    pub alive: bool,
    /// The cell the player occupies. A step commits immediately, so while
    /// moving this is already the destination.
    pub x: u8,
    pub y: u8,
    pub dir: Direction,
    /// Ticks elapsed in the current step; 0 means settled.
    pub move_progress: u8,
    /// Ticks the current step takes in total.
    pub move_total: u8,
    pub bombs_max: u8,
    pub bombs_active: u8,
    pub flame: u8,
    pub speed: u8,
    pub score: u16,
    /// Tick the player died on, for placement ordering.
    pub died_at: Option<u32>,
}

pub open spec fn spec_snapshot(p: Player) -> PlayerSnapshot {
    PlayerSnapshot {
        id: p.id,
        alive: p.alive,
        moving: p.move_progress > 0,
        x: p.x,
        y: p.y,
        dir: p.dir,
        move_progress: p.move_progress,
        bombs_max: p.bombs_max,
        flame: p.flame,
        speed: p.speed,
        score: p.score,
    }
}

pub open spec fn spec_state_record(p: Player) -> DeltaRecord {
    DeltaRecord::PlayerState {
        id: p.id,
        alive: p.alive,
        moving: p.move_progress > 0,
        x: p.x,
        y: p.y,
        dir: p.dir,
        move_progress: p.move_progress,
    }
}

pub open spec fn spec_stats_record(p: Player) -> DeltaRecord {
    DeltaRecord::PlayerStats {
        id: p.id,
        bombs_max: p.bombs_max,
        flame: p.flame,
        speed: p.speed,
        score: p.score,
    }
}

impl Player {
    fn new(id: u8, spawn: (u8, u8), rules: &Rules) -> (p: Player)
        ensures
            p == (Player {
                id,
                alive: true,
                x: spawn.0,
                y: spawn.1,
                dir: Direction::Down,
                move_progress: 0,
                move_total: 0,
                bombs_max: rules.start_bombs,
                bombs_active: 0,
                flame: rules.start_flame,
                speed: 0,
                score: 0,
                died_at: None,
            }),
    {
        Player {
            id,
            alive: true,
            x: spawn.0,
            y: spawn.1,
            dir: Direction::Down,
            move_progress: 0,
            move_total: 0,
            bombs_max: rules.start_bombs,
            bombs_active: 0,
            flame: rules.start_flame,
            speed: 0,
            score: 0,
            died_at: None,
        }
    }

    /// Mid-step between two cells.
    pub fn is_moving(&self) -> (b: bool)
        ensures
            b == (self.move_progress > 0),
    {
        self.move_progress > 0
    }

    fn snapshot(&self) -> (s: PlayerSnapshot)
        ensures
            s == spec_snapshot(*self),
    {
        PlayerSnapshot {
            id: self.id,
            alive: self.alive,
            moving: self.is_moving(),
            x: self.x,
            y: self.y,
            dir: self.dir,
            move_progress: self.move_progress,
            bombs_max: self.bombs_max,
            flame: self.flame,
            speed: self.speed,
            score: self.score,
        }
    }

    fn state_record(&self) -> (r: DeltaRecord)
        ensures
            r == spec_state_record(*self),
    {
        DeltaRecord::PlayerState {
            id: self.id,
            alive: self.alive,
            moving: self.is_moving(),
            x: self.x,
            y: self.y,
            dir: self.dir,
            move_progress: self.move_progress,
        }
    }

    fn stats_record(&self) -> (r: DeltaRecord)
        ensures
            r == spec_stats_record(*self),
    {
        DeltaRecord::PlayerStats {
            id: self.id,
            bombs_max: self.bombs_max,
            flame: self.flame,
            speed: self.speed,
            score: self.score,
        }
    }
}

#[derive(Debug, Clone, Copy, PartialEq, Eq)]
pub struct Bomb {
    pub id: u16,
    pub owner: u8,
    pub x: u8,
    pub y: u8,
    pub fuse: u16,
    /// Blast radius captured when the bomb was placed, not when it detonates.
    pub flame: u8,
}

#[derive(Debug, Clone, Copy, PartialEq, Eq)]
pub struct Powerup {
    pub id: u16,
    pub x: u8,
    pub y: u8,
    pub kind: PowerupKind,
}

/// What `step` produced this tick.
#[derive(Debug, Clone, PartialEq, Eq)]
pub struct TickOutcome {
    /// Everything that changed, in the vocabulary of the wire protocol.
    pub records: Vec<DeltaRecord>,
    pub ended: Option<MatchOutcome>,
}

impl Default for TickOutcome {
    fn default() -> (o: Self)
        ensures
            o.records@.len() == 0,
            o.ended.is_none(),
    {
        TickOutcome { records: Vec::new(), ended: None }
    }
}

#[derive(Debug, Clone, PartialEq, Eq)]
pub struct MatchOutcome {
    pub reason: EndReason,
    /// `NO_PLAYER` on a draw.
    pub winner: u8,
    pub results: Vec<PlayerResult>,
}

#[derive(Clone)]
pub struct GameState {
    pub tick: u32,
    pub grid: TileGrid,
    pub spawns: Vec<(u8, u8)>,
    pub rules: Rules,
    pub players: Vec<Player>,
    pub bombs: Vec<Bomb>,
    /// Remaining lethal ticks per cell; 0 means no flame. Indexed like the grid.
    pub flames: Vec<u8>,
    pub powerups: Vec<Powerup>,
    pub finished: bool,
    rng: Pcg,
    next_bomb_id: u16,
    next_powerup_id: u16,
    /// Cells sudden death will wall off, outermost ring first.
    sudden_death_order: Vec<(u8, u8)>,
    sudden_death_filled: usize,
}

/// The match state as a mathematical value, the generator's state included.
#[verifier::ext_equal]
pub struct GameView {
    pub tick: u32,
    pub grid: GridView,
    pub spawns: Seq<(u8, u8)>,
    pub rules: Rules,
    pub players: Seq<Player>,
    pub bombs: Seq<Bomb>,
    pub flames: Seq<u8>,
    pub powerups: Seq<Powerup>,
    pub finished: bool,
    pub next_bomb_id: u16,
    pub next_powerup_id: u16,
    pub sudden_death_order: Seq<(u8, u8)>,
    pub sudden_death_filled: int,
    /// The state of the match's random generator.
    pub rng: int,
}

impl View for GameState {
    type V = GameView;

    closed spec fn view(&self) -> GameView {
        GameView {
            tick: self.tick,
            grid: self.grid@,
            spawns: self.spawns@,
            rules: self.rules,
            players: self.players@,
            bombs: self.bombs@,
            flames: self.flames@,
            powerups: self.powerups@,
            finished: self.finished,
            next_bomb_id: self.next_bomb_id,
            next_powerup_id: self.next_powerup_id,
            sudden_death_order: self.sudden_death_order@,
            sudden_death_filled: self.sudden_death_filled as int,
            rng: self.rng@,
        }
    }
}

/// A player fit to be simulated on a `w` by `h` board.
pub open spec fn player_ok(p: Player, w: u8, h: u8) -> bool {
    &&& p.x < w
    &&& p.y < h
    &&& p.move_progress > 0 ==> (p.move_progress < p.move_total || p.move_progress == 1)
    &&& p.alive ==> p.died_at is None
}

pub open spec fn on_board(x: u8, y: u8, w: u8, h: u8) -> bool {
    x < w && y < h
}

impl GameView {
    /// The row-major index of an on-board cell.
    pub open spec fn cell(self, x: int, y: int) -> int {
        y * self.grid.width + x
    }

    /// Everything the simulation relies on.
    pub open spec fn wf(self) -> bool {
        let w = self.grid.width;
        let h = self.grid.height;
        &&& self.grid.wf()
        &&& self.flames.len() == w * h
        &&& self.players.len() <= 255
        &&& forall|i: int|
            0 <= i < self.players.len() ==> (#[trigger] self.players[i]).id == i && player_ok(
                self.players[i],
                w,
                h,
            )
        &&& forall|i: int|
            0 <= i < self.bombs.len() ==> on_board(
                (#[trigger] self.bombs[i]).x,
                self.bombs[i].y,
                w,
                h,
            )
        &&& forall|i: int, j: int|
            0 <= i < j < self.players.len() && (#[trigger] self.players[i]).alive
                && (#[trigger] self.players[j]).alive ==> !(self.players[i].x == self.players[j].x
                && self.players[i].y == self.players[j].y)
        &&& forall|i: int, j: int|
            0 <= i < j < self.bombs.len() ==> !((#[trigger] self.bombs[i]).x == (
            #[trigger] self.bombs[j]).x && self.bombs[i].y == self.bombs[j].y)
        &&& forall|i: int|
            0 <= i < self.powerups.len() ==> on_board(
                (#[trigger] self.powerups[i]).x,
                self.powerups[i].y,
                w,
                h,
            )
        &&& 0 <= self.sudden_death_filled <= self.sudden_death_order.len()
        &&& forall|i: int|
            0 <= i < self.sudden_death_order.len() ==> on_board(
                (#[trigger] self.sudden_death_order[i]).0,
                self.sudden_death_order[i].1,
                w,
                h,
            )
    }
}

/// The ring of cells with rows `top..=bottom` and columns `left..=right`,
/// clockwise from its top-left corner: top row rightward, right column
/// downward, bottom row leftward, left column upward.
pub open spec fn ring(top: int, bottom: int, left: int, right: int) -> Seq<(u8, u8)> {
    let top_row = Seq::new(count(right - left + 1), |i: int| ((left + i) as u8, top as u8));
    let right_col = Seq::new(count(bottom - top), |i: int| (right as u8, (top + 1 + i) as u8));
    let bottom_row = if top < bottom {
        Seq::new(count(right - left), |i: int| ((right - 1 - i) as u8, bottom as u8))
    } else {
        Seq::empty()
    };
    let left_col = if left < right {
        Seq::new(count(bottom - top - 1), |i: int| (left as u8, (bottom - 1 - i) as u8))
    } else {
        Seq::empty()
    };
    top_row + right_col + bottom_row + left_col
}

/// A length: `n` when positive, else 0.
pub open spec fn count(n: int) -> nat {
    if n > 0 {
        n as nat
    } else {
        0
    }
}

/// Rings from the outermost inward, while any cells are left.
pub open spec fn spiral(top: int, bottom: int, left: int, right: int) -> Seq<(u8, u8)>
    decreases bottom - top + 2,
{
    if top <= bottom && left <= right {
        ring(top, bottom, left, right) + spiral(top + 1, bottom - 1, left + 1, right - 1)
    } else {
        Seq::empty()
    }
}

/// The cells of a spiral lie inside its outermost ring.
pub proof fn lemma_spiral_within(top: int, bottom: int, left: int, right: int)
    requires
        0 <= top,
        0 <= left,
        bottom <= 254,
        right <= 254,
    ensures
        forall|k: int|
            0 <= k < spiral(top, bottom, left, right).len() ==> left <= (#[trigger] spiral(
                top,
                bottom,
                left,
                right,
            )[k]).0 <= right && top <= spiral(top, bottom, left, right)[k].1 <= bottom,
    decreases bottom - top + 2,
{
    if top <= bottom && left <= right {
        lemma_spiral_within(top + 1, bottom - 1, left + 1, right - 1);
        let r = ring(top, bottom, left, right);
        let rest = spiral(top + 1, bottom - 1, left + 1, right - 1);
        assert forall|k: int| 0 <= k < r.len() implies left <= (#[trigger] r[k]).0 <= right && top
            <= r[k].1 <= bottom by {}
        assert forall|k: int| 0 <= k < spiral(top, bottom, left, right).len() implies left <= (
        #[trigger] spiral(top, bottom, left, right)[k]).0 <= right && top <= spiral(
            top,
            bottom,
            left,
            right,
        )[k].1 <= bottom by {
            if k >= r.len() {
                assert(spiral(top, bottom, left, right)[k] == rest[k - r.len()]);
            } else {
                assert(spiral(top, bottom, left, right)[k] == r[k]);
            }
        }
    }
}

/// Interior cells ordered outermost ring first, clockwise: the order sudden
/// death walls them off in.
fn spiral_order(width: u8, height: u8) -> (out: Vec<(u8, u8)>)
    ensures
        out@ == spiral(1, height - 2, 1, width - 2),
{
    let mut top: i32 = 1;
    let mut bottom: i32 = height as i32 - 2;
    let mut left: i32 = 1;
    let mut right: i32 = width as i32 - 2;
    let mut out: Vec<(u8, u8)> = Vec::new();
    while top <= bottom && left <= right
        invariant
            1 <= top,
            top == left,
            (height - 2) - bottom == top - 1,
            (width - 2) - right == left - 1,
            out@ + spiral(top as int, bottom as int, left as int, right as int) == spiral(
                1,
                height - 2,
                1,
                width - 2,
            ),
        decreases bottom - top + 2,
    {
        let ghost before = out@;
        let mut x: i32 = left;
        while x <= right
            invariant
                1 <= top <= bottom <= 253,
                1 <= left <= right <= 253,
                left <= x <= right + 1,
                out@ == before + Seq::new(
                    (x - left) as nat,
                    |i: int| ((left + i) as u8, top as u8),
                ),
            decreases right + 1 - x,
        {
            out.push((x as u8, top as u8));
            x = x + 1;
        }
        let ghost s1 = out@;
        let mut y: i32 = top + 1;
        while y <= bottom
            invariant
                1 <= top <= bottom <= 253,
                1 <= left <= right <= 253,
                top + 1 <= y <= bottom + 1,
                out@ == s1 + Seq::new((y - top - 1) as nat, |i: int| (right as u8, (top + 1 + i) as u8)),
            decreases bottom + 1 - y,
        {
            out.push((right as u8, y as u8));
            y = y + 1;
        }
        let ghost s2 = out@;
        if top < bottom {
            let mut x: i32 = right - 1;
            while x >= left
                invariant
                    1 <= top < bottom <= 253,
                    1 <= left <= right <= 253,
                    left - 1 <= x <= right - 1,
                    out@ == s2 + Seq::new(
                        (right - 1 - x) as nat,
                        |i: int| ((right - 1 - i) as u8, bottom as u8),
                    ),
                decreases x - left + 1,
            {
                out.push((x as u8, bottom as u8));
                x = x - 1;
            }
        }
        let ghost s3 = out@;
        if left < right {
            let mut y: i32 = bottom - 1;
            while y > top
                invariant
                    1 <= top <= bottom <= 253,
                    1 <= left < right <= 253,
                    top - 1 <= y <= bottom - 1,
                    y >= top || y == bottom - 1,
                    out@ == s3 + Seq::new(
                        (bottom - 1 - y) as nat,
                        |i: int| (left as u8, (bottom - 1 - i) as u8),
                    ),
                decreases y - top,
            {
                out.push((left as u8, y as u8));
                y = y - 1;
            }
        }
        proof {
            let r = ring(top as int, bottom as int, left as int, right as int);
            assert(out@ =~= before + r);
            assert(spiral(top as int, bottom as int, left as int, right as int) == r + spiral(
                top + 1,
                bottom - 1,
                left + 1,
                right - 1,
            ));
            assert(before + r + spiral(top + 1, bottom - 1, left + 1, right - 1) =~= before + (r
                + spiral(top + 1, bottom - 1, left + 1, right - 1)));
        }
        top = top + 1;
        bottom = bottom - 1;
        left = left + 1;
        right = right - 1;
    }
    assert(out@ + spiral(top as int, bottom as int, left as int, right as int) =~= out@);
    out
}

pub open spec fn spec_new_player(id: u8, spawn: (u8, u8), rules: Rules) -> Player {
    Player {
        id,
        alive: true,
        x: spawn.0,
        y: spawn.1,
        dir: Direction::Down,
        move_progress: 0,
        move_total: 0,
        bombs_max: rules.start_bombs,
        bombs_active: 0,
        flame: rules.start_flame,
        speed: 0,
        score: 0,
        died_at: None,
    }
}

/// How many of the players are alive.
pub open spec fn alive_count(players: Seq<Player>) -> nat
    decreases players.len(),
{
    if players.len() == 0 {
        0
    } else {
        alive_count(players.drop_last()) + if players.last().alive {
            1nat
        } else {
            0nat
        }
    }
}

/// Index of the first bomb on `(x, y)`, if any.
pub open spec fn bomb_index_at(bombs: Seq<Bomb>, x: u8, y: u8) -> Option<int>
    decreases bombs.len(),
{
    if bombs.len() == 0 {
        None
    } else {
        match bomb_index_at(bombs.drop_last(), x, y) {
            Some(i) => Some(i),
            None => if bombs.last().x == x && bombs.last().y == y {
                Some(bombs.len() - 1)
            } else {
                None
            },
        }
    }
}

/// Index of the first living player on `(x, y)`, if any.
pub open spec fn player_index_at(players: Seq<Player>, x: u8, y: u8) -> Option<int>
    decreases players.len(),
{
    if players.len() == 0 {
        None
    } else {
        match player_index_at(players.drop_last(), x, y) {
            Some(i) => Some(i),
            None => if players.last().alive && players.last().x == x && players.last().y == y {
                Some(players.len() - 1)
            } else {
                None
            },
        }
    }
}

/// What `bomb_index_at` finds: the first bomb on the cell, or none is there.
pub proof fn lemma_bomb_index_at(bombs: Seq<Bomb>, x: u8, y: u8)
    ensures
        match bomb_index_at(bombs, x, y) {
            Some(i) => 0 <= i < bombs.len() && bombs[i].x == x && bombs[i].y == y && forall|j: int|
                0 <= j < i ==> !(#[trigger] bombs[j].x == x && bombs[j].y == y),
            None => forall|j: int|
                0 <= j < bombs.len() ==> !(#[trigger] bombs[j].x == x && bombs[j].y == y),
        },
    decreases bombs.len(),
{
    if bombs.len() > 0 {
        lemma_bomb_index_at(bombs.drop_last(), x, y);
        assert forall|j: int| 0 <= j < bombs.len() - 1 implies #[trigger] bombs[j] == bombs.drop_last()[j] by {}
    }
}

/// What `player_index_at` finds: the first living player on the cell, or
/// none is there.
pub proof fn lemma_player_index_at(players: Seq<Player>, x: u8, y: u8)
    ensures
        match player_index_at(players, x, y) {
            Some(i) => 0 <= i < players.len() && players[i].alive && players[i].x == x
                && players[i].y == y && forall|j: int|
                0 <= j < i ==> !(#[trigger] players[j].alive && players[j].x == x && players[j].y
                    == y),
            None => forall|j: int|
                0 <= j < players.len() ==> !(#[trigger] players[j].alive && players[j].x == x
                    && players[j].y == y),
        },
    decreases players.len(),
{
    if players.len() > 0 {
        lemma_player_index_at(players.drop_last(), x, y);
        assert forall|j: int| 0 <= j < players.len() - 1 implies #[trigger] players[j] == players.drop_last()[j] by {}
    }
}

impl GameState {
    /// A fresh match on a generated board: every player on its spawn, no
    /// bombs, no flames, no power-ups, tick 0.
    pub fn new(map: GeneratedMap, rules: Rules, seed: u64, player_count: u8) -> (s: Self)
        requires
            map.grid@.wf(),
            player_count <= map.spawns@.len(),
            forall|k: int|
                0 <= k < player_count ==> on_board(
                    (#[trigger] map.spawns@[k]).0,
                    map.spawns@[k].1,
                    map.grid.width,
                    map.grid.height,
                ),
            forall|i: int, j: int|
                0 <= i < j < player_count ==> #[trigger] map.spawns@[i] != #[trigger] map.spawns@[j],
        ensures
            s@.wf(),
            s@.tick == 0,
            s@.grid == map.grid@,
            s@.spawns == map.spawns@,
            s@.rules == rules,
            s@.players == Seq::new(
                player_count as nat,
                |i: int| spec_new_player(i as u8, map.spawns@[i], rules),
            ),
            s@.bombs.len() == 0,
            s@.flames == Seq::new((map.grid.width * map.grid.height) as nat, |i: int| 0u8),
            s@.powerups.len() == 0,
            !s@.finished,
            s@.next_bomb_id == 1,
            s@.next_powerup_id == 1,
            s@.sudden_death_order == spiral(1, map.grid.height - 2, 1, map.grid.width - 2),
            s@.sudden_death_filled == 0,
            s@.rng == pcg_seed(seed ^ TICK_SEED_MIX),
    {
        let GeneratedMap { grid, spawns } = map;
        let mut players: Vec<Player> = Vec::new();
        let mut id: u8 = 0;
        while id < player_count
            invariant
                id <= player_count,
                player_count <= spawns@.len(),
                players@ == Seq::new(
                    id as nat,
                    |i: int| spec_new_player(i as u8, spawns@[i], rules),
                ),
            decreases player_count - id,
        {
            players.push(Player::new(id, spawns[id as usize], &rules));
            id = id + 1;
            assert(players@ =~= Seq::new(
                id as nat,
                |i: int| spec_new_player(i as u8, spawns@[i], rules),
            ));
        }
        proof {
            lemma_mul_u8(grid.width, grid.height);
        }
        let n: usize = grid.width as usize * grid.height as usize;
        let mut flames: Vec<u8> = Vec::new();
        while flames.len() < n
            invariant
                n == grid.width * grid.height,
                flames@.len() <= n,
                flames@ == Seq::new(flames@.len(), |i: int| 0u8),
            decreases n - flames@.len(),
        {
            flames.push(0);
            assert(flames@ =~= Seq::new(flames@.len(), |i: int| 0u8));
        }
        let sudden_death_order = spiral_order(grid.width, grid.height);
        proof {
            lemma_spiral_within(1, grid.height - 2, 1, grid.width - 2);
        }
        let s = GameState {
            tick: 0,
            grid,
            spawns,
            rules,
            players,
            bombs: Vec::new(),
            flames,
            powerups: Vec::new(),
            finished: false,
            rng: seeded(seed ^ TICK_SEED_MIX),
            next_bomb_id: 1,
            next_powerup_id: 1,
            sudden_death_order,
            sudden_death_filled: 0,
        };
        proof {
            assert forall|i: int| 0 <= i < s@.sudden_death_order.len() implies on_board(
                (#[trigger] s@.sudden_death_order[i]).0,
                s@.sudden_death_order[i].1,
                s@.grid.width,
                s@.grid.height,
            ) by {
                assert(s@.sudden_death_order[i] == spiral(1, grid.height - 2, 1, grid.width - 2)[i]);
            }
        }
        s
    }

    fn idx(&self, x: u8, y: u8) -> (i: usize)
        requires
            self@.wf(),
            on_board(x, y, self@.grid.width, self@.grid.height),
        ensures
            i == self@.cell(x as int, y as int),
            i < self@.flames.len(),
    {
        proof {
            lemma_cell_index(
                self.grid.width as int,
                self.grid.height as int,
                x as int,
                y as int,
                x as int,
                y as int,
            );
            lemma_mul_u8(y, self.grid.width);
        }
        y as usize * self.grid.width as usize + x as usize
    }

    /// Remaining lethal ticks on an on-board cell; 0 means no flame.
    pub fn flame_at(&self, x: u8, y: u8) -> (t: u8)
        requires
            self@.wf(),
            on_board(x, y, self@.grid.width, self@.grid.height),
        ensures
            t == self@.flames[self@.cell(x as int, y as int)],
    {
        self.flames[self.idx(x, y)]
    }

    /// The first bomb on `(x, y)`, if any.
    pub fn bomb_at(&self, x: u8, y: u8) -> (b: Option<&Bomb>)
        ensures
            match bomb_index_at(self@.bombs, x, y) {
                Some(i) => b == Some(&self@.bombs[i]),
                None => b.is_none(),
            },
    {
        let mut i: usize = 0;
        while i < self.bombs.len()
            invariant
                i <= self@.bombs.len(),
                forall|j: int|
                    0 <= j < i ==> !(#[trigger] self@.bombs[j].x == x && self@.bombs[j].y == y),
            decreases self@.bombs.len() - i,
        {
            if self.bombs[i].x == x && self.bombs[i].y == y {
                proof {
                    lemma_bomb_index_at(self@.bombs, x, y);
                }
                return Some(&self.bombs[i]);
            }
            i = i + 1;
        }
        proof {
            lemma_bomb_index_at(self@.bombs, x, y);
        }
        None
    }

    /// The first living player on `(x, y)`, if any.
    pub fn player_at(&self, x: u8, y: u8) -> (p: Option<&Player>)
        ensures
            match player_index_at(self@.players, x, y) {
                Some(i) => p == Some(&self@.players[i]),
                None => p.is_none(),
            },
    {
        let mut i: usize = 0;
        while i < self.players.len()
            invariant
                i <= self@.players.len(),
                forall|j: int|
                    0 <= j < i ==> !(#[trigger] self@.players[j].alive && self@.players[j].x == x
                        && self@.players[j].y == y),
            decreases self@.players.len() - i,
        {
            if self.players[i].alive && self.players[i].x == x && self.players[i].y == y {
                proof {
                    lemma_player_index_at(self@.players, x, y);
                }
                return Some(&self.players[i]);
            }
            i = i + 1;
        }
        proof {
            lemma_player_index_at(self@.players, x, y);
        }
        None
    }

    /// Ticks left on the round timer, never below zero.
    pub fn ticks_remaining(&self) -> (t: u32)
        ensures
            t == (if self@.rules.round_time_ticks > self@.tick {
                self@.rules.round_time_ticks - self@.tick
            } else {
                0
            }),
    {
        self.rules.round_time_ticks.saturating_sub(self.tick)
    }

    /// How many players are alive.
    pub fn alive_count(&self) -> (n: usize)
        ensures
            n == alive_count(self@.players),
    {
        let mut n: usize = 0;
        let mut i: usize = 0;
        while i < self.players.len()
            invariant
                i <= self@.players.len(),
                n == alive_count(self@.players.take(i as int)),
                n <= i,
            decreases self@.players.len() - i,
        {
            proof {
                assert(self@.players.take(i + 1).drop_last() =~= self@.players.take(i as int));
            }
            if self.players[i].alive {
                n = n + 1;
            }
            i = i + 1;
        }
        assert(self@.players.take(i as int) =~= self@.players);
        n
    }
}

/// FNV-1a's offset basis and prime, over 64-bit words rather than bytes.
pub const FNV_OFFSET: u64 = 0xcbf2_9ce4_8422_2325;

pub const FNV_PRIME: u64 = 0x1000_0000_01b3;

pub open spec fn fnv_step(h: u64, v: u64) -> u64 {
    (h ^ v).wrapping_mul(FNV_PRIME)
}

/// The hash of `words` fed in order into a state that starts at `h`.
pub open spec fn fnv(h: u64, words: Seq<u64>) -> u64
    decreases words.len(),
{
    if words.len() == 0 {
        h
    } else {
        fnv_step(fnv(h, words.drop_last()), words.last())
    }
}

pub open spec fn player_words(p: Player) -> Seq<u64> {
    seq![
        p.id as u64,
        if p.alive {
            1u64
        } else {
            0u64
        },
        p.x as u64,
        p.y as u64,
        direction_code(p.dir) as u64,
        p.move_progress as u64,
        p.bombs_max as u64,
        p.bombs_active as u64,
        p.flame as u64,
        p.speed as u64,
        p.score as u64,
    ]
}

pub open spec fn bomb_words(b: Bomb) -> Seq<u64> {
    seq![b.id as u64, b.owner as u64, b.x as u64, b.y as u64, b.fuse as u64, b.flame as u64]
}

pub open spec fn powerup_words(p: Powerup) -> Seq<u64> {
    seq![p.id as u64, p.x as u64, p.y as u64, powerup_code(p.kind) as u64]
}

/// The words of each item, one item after another.
pub open spec fn all_words<T>(items: Seq<T>, words: spec_fn(T) -> Seq<u64>) -> Seq<u64>
    decreases items.len(),
{
    if items.len() == 0 {
        Seq::empty()
    } else {
        all_words(items.drop_last(), words) + words(items.last())
    }
}

/// Everything that defines a state, in the order the hash takes it: the
/// tick, the tiles, the players, the bombs, the flames, the power-ups.
pub open spec fn state_words(s: GameView) -> Seq<u64> {
    seq![s.tick as u64] + s.grid.cells.map_values(|t: Tile| tile_code(t) as u64) + all_words(
        s.players,
        |p: Player| player_words(p),
    ) + all_words(s.bombs, |b: Bomb| bomb_words(b)) + s.flames.map_values(|f: u8| f as u64)
        + all_words(s.powerups, |p: Powerup| powerup_words(p))
}

fn feed(h: u64, v: u64) -> (r: u64)
    ensures
        r == fnv_step(h, v),
{
    (h ^ v).wrapping_mul(FNV_PRIME)
}

/// Feeding one more word extends the hash by one step.
proof fn lemma_fnv_push(h: u64, words: Seq<u64>, v: u64)
    ensures
        fnv(h, words.push(v)) == fnv_step(fnv(h, words), v),
{
    assert(words.push(v).drop_last() =~= words);
}

pub open spec fn bomb_snapshot(b: Bomb) -> BombSnapshot {
    BombSnapshot { id: b.id, owner: b.owner, x: b.x, y: b.y, fuse_remaining: b.fuse }
}

pub open spec fn powerup_snapshot(p: Powerup) -> PowerupSnapshot {
    PowerupSnapshot { id: p.id, x: p.x, y: p.y, kind: p.kind }
}

/// The burning cells among the first `n` of a `w`-wide board, in row-major
/// order.
pub open spec fn lit_cells(flames: Seq<u8>, w: int, n: int) -> Seq<FlameCell>
    decreases n,
{
    if n <= 0 {
        Seq::empty()
    } else {
        let k = n - 1;
        lit_cells(flames, w, k) + if flames[k] > 0 {
            seq![FlameCell { x: (k % w) as u8, y: (k / w) as u8, ticks_remaining: flames[k] }]
        } else {
            Seq::empty()
        }
    }
}

impl GameState {
    /// The full state as a keyframe.
    pub fn keyframe(&self) -> (k: Keyframe)
        requires
            self@.wf(),
        ensures
            k.tick == self@.tick,
            k.grid@ == self@.grid,
            k.players@ == self@.players.map_values(|p: Player| spec_snapshot(p)),
            k.bombs@ == self@.bombs.map_values(|b: Bomb| bomb_snapshot(b)),
            k.flames@ == lit_cells(
                self@.flames,
                self@.grid.width as int,
                self@.grid.width * self@.grid.height,
            ),
            k.powerups@ == self@.powerups.map_values(|p: Powerup| powerup_snapshot(p)),
            k.ticks_remaining == (if self@.rules.round_time_ticks > self@.tick {
                self@.rules.round_time_ticks - self@.tick
            } else {
                0
            }),
    {
        let mut cells: Vec<Tile> = Vec::new();
        let mut i: usize = 0;
        while i < self.grid.cells.len()
            invariant
                i <= self.grid.cells@.len(),
                cells@ == self.grid.cells@.take(i as int),
            decreases self.grid.cells@.len() - i,
        {
            cells.push(self.grid.cells[i]);
            i = i + 1;
            assert(cells@ =~= self.grid.cells@.take(i as int));
        }
        assert(cells@ =~= self.grid.cells@);
        let grid = TileGrid { width: self.grid.width, height: self.grid.height, cells };
        let mut players: Vec<PlayerSnapshot> = Vec::new();
        let mut i: usize = 0;
        while i < self.players.len()
            invariant
                i <= self@.players.len(),
                players@ == self@.players.take(i as int).map_values(|p: Player| spec_snapshot(p)),
            decreases self@.players.len() - i,
        {
            players.push(self.players[i].snapshot());
            i = i + 1;
            assert(players@ =~= self@.players.take(i as int).map_values(
                |p: Player| spec_snapshot(p),
            ));
        }
        assert(self@.players.take(i as int) =~= self@.players);
        let mut bombs: Vec<BombSnapshot> = Vec::new();
        let mut i: usize = 0;
        while i < self.bombs.len()
            invariant
                i <= self@.bombs.len(),
                bombs@ == self@.bombs.take(i as int).map_values(|b: Bomb| bomb_snapshot(b)),
            decreases self@.bombs.len() - i,
        {
            let b = &self.bombs[i];
            bombs.push(
                BombSnapshot { id: b.id, owner: b.owner, x: b.x, y: b.y, fuse_remaining: b.fuse },
            );
            i = i + 1;
            assert(bombs@ =~= self@.bombs.take(i as int).map_values(|b: Bomb| bomb_snapshot(b)));
        }
        assert(self@.bombs.take(i as int) =~= self@.bombs);
        let w = self.grid.width;
        let h = self.grid.height;
        let mut flames: Vec<FlameCell> = Vec::new();
        let mut y: u8 = 0;
        while y < h
            invariant
                self@.wf(),
                w == self@.grid.width,
                h == self@.grid.height,
                y <= h,
                flames@ == lit_cells(self@.flames, w as int, y * w),
            decreases h - y,
        {
            let mut x: u8 = 0;
            while x < w
                invariant
                    self@.wf(),
                    w == self@.grid.width,
                    h == self@.grid.height,
                    y < h,
                    x <= w,
                    flames@ == lit_cells(self@.flames, w as int, y * w + x),
                decreases w - x,
            {
                let t = self.flame_at(x, y);
                proof {
                    vstd::arithmetic::div_mod::lemma_fundamental_div_mod_converse(
                        y * w + x,
                        w as int,
                        y as int,
                        x as int,
                    );
                }
                if t > 0 {
                    flames.push(FlameCell { x, y, ticks_remaining: t });
                }
                x = x + 1;
            }
            y = y + 1;
            assert((y - 1) * w + w == y * w) by (nonlinear_arith);
        }
        assert(y * w == w * h) by (nonlinear_arith)
            requires
                y == h,
        ;
        let mut powerups: Vec<PowerupSnapshot> = Vec::new();
        let mut i: usize = 0;
        while i < self.powerups.len()
            invariant
                i <= self@.powerups.len(),
                powerups@ == self@.powerups.take(i as int).map_values(
                    |p: Powerup| powerup_snapshot(p),
                ),
            decreases self@.powerups.len() - i,
        {
            let p = &self.powerups[i];
            powerups.push(PowerupSnapshot { id: p.id, x: p.x, y: p.y, kind: p.kind });
            i = i + 1;
            assert(powerups@ =~= self@.powerups.take(i as int).map_values(
                |p: Powerup| powerup_snapshot(p),
            ));
        }
        assert(self@.powerups.take(i as int) =~= self@.powerups);
        Keyframe {
            tick: self.tick,
            grid,
            players,
            bombs,
            flames,
            powerups,
            ticks_remaining: self.ticks_remaining(),
        }
    }

    /// A cheap order-sensitive hash of everything that defines the state.
    ///
    /// Two runs that agree here agree on the match.
    pub fn state_hash(&self) -> (h: u64)
        ensures
            h == fnv(FNV_OFFSET, state_words(self@)),
    {
        let ghost tile_word = |t: Tile| tile_code(t) as u64;
        let ghost flame_word = |f: u8| f as u64;
        let ghost pw = |p: Player| player_words(p);
        let ghost bw = |b: Bomb| bomb_words(b);
        let ghost uw = |p: Powerup| powerup_words(p);
        let mut h: u64 = FNV_OFFSET;
        let ghost mut words: Seq<u64> = Seq::empty();
        h = feed(h, self.tick as u64);
        proof {
            lemma_fnv_push(FNV_OFFSET, words, self.tick as u64);
            words = words.push(self.tick as u64);
        }
        let ghost base = words;
        let mut i: usize = 0;
        while i < self.grid.cells.len()
            invariant
                i <= self.grid.cells@.len(),
                h == fnv(FNV_OFFSET, words),
                words == base + self.grid.cells@.take(i as int).map_values(tile_word),
                tile_word == (|t: Tile| tile_code(t) as u64),
            decreases self.grid.cells@.len() - i,
        {
            let v = self.grid.cells[i].code() as u64;
            h = feed(h, v);
            proof {
                lemma_fnv_push(FNV_OFFSET, words, v);
                words = words.push(v);
                assert(words =~= base + self.grid.cells@.take(i + 1).map_values(tile_word));
            }
            i = i + 1;
        }
        assert(self.grid.cells@.take(i as int) =~= self.grid.cells@);
        let ghost base = words;
        let mut i: usize = 0;
        while i < self.players.len()
            invariant
                i <= self@.players.len(),
                h == fnv(FNV_OFFSET, words),
                words == base + all_words(self@.players.take(i as int), pw),
                pw == (|p: Player| player_words(p)),
            decreases self@.players.len() - i,
        {
            let p = &self.players[i];
            let vals: [u64; 11] = [
                p.id as u64,
                if p.alive {
                    1
                } else {
                    0
                },
                p.x as u64,
                p.y as u64,
                p.dir.code() as u64,
                p.move_progress as u64,
                p.bombs_max as u64,
                p.bombs_active as u64,
                p.flame as u64,
                p.speed as u64,
                p.score as u64,
            ];
            assert(vals@ =~= player_words(*p));
            let ghost start = words;
            let mut k: usize = 0;
            while k < 11
                invariant
                    k <= 11,
                    vals@.len() == 11,
                    h == fnv(FNV_OFFSET, words),
                    words == start + vals@.take(k as int),
                decreases 11 - k,
            {
                h = feed(h, vals[k]);
                proof {
                    lemma_fnv_push(FNV_OFFSET, words, vals@[k as int]);
                    words = words.push(vals@[k as int]);
                    assert(words =~= start + vals@.take(k + 1));
                }
                k = k + 1;
            }
            proof {
                assert(vals@.take(11) =~= vals@);
                assert(self@.players.take(i + 1).drop_last() =~= self@.players.take(i as int));
                assert(words =~= base + all_words(self@.players.take(i + 1), pw));
            }
            i = i + 1;
        }
        assert(self@.players.take(i as int) =~= self@.players);
        let ghost base = words;
        let mut i: usize = 0;
        while i < self.bombs.len()
            invariant
                i <= self@.bombs.len(),
                h == fnv(FNV_OFFSET, words),
                words == base + all_words(self@.bombs.take(i as int), bw),
                bw == (|b: Bomb| bomb_words(b)),
            decreases self@.bombs.len() - i,
        {
            let b = &self.bombs[i];
            let vals: [u64; 6] = [
                b.id as u64,
                b.owner as u64,
                b.x as u64,
                b.y as u64,
                b.fuse as u64,
                b.flame as u64,
            ];
            assert(vals@ =~= bomb_words(*b));
            let ghost start = words;
            let mut k: usize = 0;
            while k < 6
                invariant
                    k <= 6,
                    vals@.len() == 6,
                    h == fnv(FNV_OFFSET, words),
                    words == start + vals@.take(k as int),
                decreases 6 - k,
            {
                h = feed(h, vals[k]);
                proof {
                    lemma_fnv_push(FNV_OFFSET, words, vals@[k as int]);
                    words = words.push(vals@[k as int]);
                    assert(words =~= start + vals@.take(k + 1));
                }
                k = k + 1;
            }
            proof {
                assert(vals@.take(6) =~= vals@);
                assert(self@.bombs.take(i + 1).drop_last() =~= self@.bombs.take(i as int));
                assert(words =~= base + all_words(self@.bombs.take(i + 1), bw));
            }
            i = i + 1;
        }
        assert(self@.bombs.take(i as int) =~= self@.bombs);
        let ghost base = words;
        let mut i: usize = 0;
        while i < self.flames.len()
            invariant
                i <= self@.flames.len(),
                h == fnv(FNV_OFFSET, words),
                words == base + self@.flames.take(i as int).map_values(flame_word),
                flame_word == (|f: u8| f as u64),
            decreases self@.flames.len() - i,
        {
            let v = self.flames[i] as u64;
            h = feed(h, v);
            proof {
                lemma_fnv_push(FNV_OFFSET, words, v);
                words = words.push(v);
                assert(words =~= base + self@.flames.take(i + 1).map_values(flame_word));
            }
            i = i + 1;
        }
        assert(self@.flames.take(i as int) =~= self@.flames);
        let ghost base = words;
        let mut i: usize = 0;
        while i < self.powerups.len()
            invariant
                i <= self@.powerups.len(),
                h == fnv(FNV_OFFSET, words),
                words == base + all_words(self@.powerups.take(i as int), uw),
                uw == (|p: Powerup| powerup_words(p)),
            decreases self@.powerups.len() - i,
        {
            let p = &self.powerups[i];
            let vals: [u64; 4] = [p.id as u64, p.x as u64, p.y as u64, p.kind.code() as u64];
            assert(vals@ =~= powerup_words(*p));
            let ghost start = words;
            let mut k: usize = 0;
            while k < 4
                invariant
                    k <= 4,
                    vals@.len() == 4,
                    h == fnv(FNV_OFFSET, words),
                    words == start + vals@.take(k as int),
                decreases 4 - k,
            {
                h = feed(h, vals[k]);
                proof {
                    lemma_fnv_push(FNV_OFFSET, words, vals@[k as int]);
                    words = words.push(vals@[k as int]);
                    assert(words =~= start + vals@.take(k + 1));
                }
                k = k + 1;
            }
            proof {
                assert(vals@.take(4) =~= vals@);
                assert(self@.powerups.take(i + 1).drop_last() =~= self@.powerups.take(i as int));
                assert(words =~= base + all_words(self@.powerups.take(i + 1), uw));
            }
            i = i + 1;
        }
        assert(self@.powerups.take(i as int) =~= self@.powerups);
        assert(words =~= state_words(self@));
        h
    }
}

/// `b` extends `a`: everything `a` holds stays in place.
pub open spec fn grows(a: Seq<DeltaRecord>, b: Seq<DeltaRecord>) -> bool {
    a.len() <= b.len() && forall|i: int| 0 <= i < a.len() ==> #[trigger] b[i] == a[i]
}

/// A record the detonation phase writes: a blast, a bomb or power-up taken
/// off, a block destroyed, a score, a drop, or a flame.
pub open spec fn blast_kind(r: DeltaRecord) -> bool {
    ||| r is Explosion
    ||| r is BombRemove
    ||| r is TileSet
    ||| r is PlayerStats
    ||| r is PowerupAdd
    ||| r is PowerupRemove
    ||| r is FlameAdd
}

/// `b` is `a` followed by detonation-phase records only.
pub open spec fn blast_only(a: Seq<DeltaRecord>, b: Seq<DeltaRecord>) -> bool {
    &&& grows(a, b)
    &&& forall|n: int| a.len() <= n < b.len() ==> blast_kind(#[trigger] b[n])
}

/// Every power-up of `b` was already one of `a`'s, or lies on a lit cell
/// whose soft block `a` still had: a drop from a block the blast destroyed.
pub open spec fn drops_from_burns(a: GameView, b: GameView, lit: Set<(u8, u8)>) -> bool {
    forall|k: int|
        0 <= k < b.powerups.len() ==> a.powerups.contains(#[trigger] b.powerups[k]) || (lit.contains(
            (b.powerups[k].x, b.powerups[k].y),
        ) && a.grid.at(b.powerups[k].x as int, b.powerups[k].y as int) == Tile::Soft)
}

proof fn lemma_drops_trans(a: GameView, b: GameView, c: GameView, l1: Set<(u8, u8)>, l2: Set<(u8, u8)>, l: Set<(u8, u8)>)
    requires
        drops_from_burns(a, b, l1),
        drops_from_burns(b, c, l2),
        burned(a.grid, b.grid, l1),
        c.wf(),
        c.grid.width == a.grid.width,
        c.grid.height == a.grid.height,
        l1.subset_of(l),
        l2.subset_of(l),
    ensures
        drops_from_burns(a, c, l),
{
    assert forall|k: int| 0 <= k < c.powerups.len() implies a.powerups.contains(#[trigger] c.powerups[k]) || (
    l.contains((c.powerups[k].x, c.powerups[k].y)) && a.grid.at(
        c.powerups[k].x as int,
        c.powerups[k].y as int,
    ) == Tile::Soft) by {
        let u = c.powerups[k];
        assert(on_board(u.x, u.y, c.grid.width, c.grid.height));
        if b.powerups.contains(u) {
            let j: int = choose|j: int| 0 <= j < b.powerups.len() && b.powerups[j] == u;
            assert(a.powerups.contains(b.powerups[j]) || (l1.contains((u.x, u.y)) && a.grid.at(
                u.x as int,
                u.y as int,
            ) == Tile::Soft));
        } else {
            assert(a.grid.in_bounds(u.x as int, u.y as int));
        }
    }
}

/// What a blast never touches: the bomb ids to come and the sudden-death
/// spiral.
pub open spec fn blast_frame(a: GameView, b: GameView) -> bool {
    &&& b.next_bomb_id == a.next_bomb_id
    &&& b.sudden_death_order == a.sudden_death_order
    &&& b.sudden_death_filled == a.sudden_death_filled
}

/// `recs` from position `from` on report the soft block on `c` destroyed.
pub open spec fn reports_burn(recs: Seq<DeltaRecord>, from: int, c: (u8, u8)) -> bool {
    exists|n: int|
        from <= n < recs.len() && recs[n] == (DeltaRecord::TileSet { x: c.0, y: c.1, tile: Tile::Empty })
}

/// `recs` from position `from` on report bomb `id` taken off the board.
pub open spec fn reports_removal(recs: Seq<DeltaRecord>, from: int, id: u16) -> bool {
    exists|n: int| from <= n < recs.len() && recs[n] == (DeltaRecord::BombRemove { id })
}

/// The view with player `i` replaced.
pub open spec fn with_player(v: GameView, i: int, p: Player) -> GameView {
    GameView { players: v.players.update(i, p), ..v }
}

/// Points added to player `pid`'s score, saturating, if that player exists.
pub open spec fn spec_award(v: GameView, pid: u8, points: u16) -> GameView {
    if (pid as int) < v.players.len() {
        with_player(
            v,
            pid as int,
            Player { score: v.players[pid as int].score.saturating_add(points), ..v.players[pid as int] },
        )
    } else {
        v
    }
}

pub open spec fn award_records(v: GameView, pid: u8, points: u16) -> Seq<DeltaRecord> {
    if (pid as int) < v.players.len() {
        seq![spec_stats_record(spec_award(v, pid, points).players[pid as int])]
    } else {
        Seq::empty()
    }
}

/// Player `i` dead as of the current tick, if alive.
pub open spec fn spec_kill(v: GameView, i: int) -> GameView {
    if v.players[i].alive {
        with_player(
            v,
            i,
            Player { alive: false, died_at: Some(v.tick), move_progress: 0, ..v.players[i] },
        )
    } else {
        v
    }
}

/// The next id after `id`, skipping 0.
pub open spec fn next_id(id: u16) -> u16 {
    if id == u16::MAX {
        1
    } else {
        (id + 1) as u16
    }
}

/// The kind a roll of `i` below 3 picks.
pub open spec fn kind_at(i: int) -> PowerupKind {
    if i == 0 {
        PowerupKind::ExtraBomb
    } else if i == 1 {
        PowerupKind::Flame
    } else {
        PowerupKind::Speed
    }
}

/// What the simulation never undoes: a dead player stays dead, a score never
/// falls, a solid cell stays solid, and no soft block appears.
pub open spec fn evolves(a: GameView, b: GameView) -> bool {
    &&& b.grid.width == a.grid.width
    &&& b.grid.height == a.grid.height
    &&& b.rules == a.rules
    &&& b.spawns == a.spawns
    &&& b.players.len() == a.players.len()
    &&& forall|i: int|
        0 <= i < a.players.len() && !(#[trigger] a.players[i]).alive ==> !b.players[i].alive
            && b.players[i].died_at == a.players[i].died_at
    &&& forall|i: int|
        0 <= i < a.players.len() ==> (#[trigger] b.players[i]).score >= a.players[i].score
    &&& forall|x: int, y: int|
        a.grid.in_bounds(x, y) && #[trigger] a.grid.at(x, y) == Tile::Solid ==> b.grid.at(x, y)
            == Tile::Solid
    &&& forall|x: int, y: int|
        a.grid.in_bounds(x, y) && #[trigger] b.grid.at(x, y) == Tile::Soft ==> a.grid.at(x, y)
            == Tile::Soft
}

pub proof fn lemma_evolves_refl(a: GameView)
    ensures
        evolves(a, a),
{
}

pub proof fn lemma_evolves_trans(a: GameView, b: GameView, c: GameView)
    requires
        evolves(a, b),
        evolves(b, c),
    ensures
        evolves(a, c),
{
    assert forall|i: int| 0 <= i < a.players.len() implies (#[trigger] c.players[i]).score
        >= a.players[i].score by {
        assert(b.players[i].score >= a.players[i].score);
    }
    assert forall|i: int| 0 <= i < a.players.len() && !(#[trigger] a.players[i]).alive implies !c.players[i].alive
        && c.players[i].died_at == a.players[i].died_at by {
        assert(!b.players[i].alive);
    }
    assert forall|x: int, y: int|
        a.grid.in_bounds(x, y) && #[trigger] a.grid.at(x, y) == Tile::Solid implies c.grid.at(x, y)
        == Tile::Solid by {
        assert(b.grid.at(x, y) == Tile::Solid);
    }
    assert forall|x: int, y: int|
        a.grid.in_bounds(x, y) && #[trigger] c.grid.at(x, y) == Tile::Soft implies a.grid.at(x, y)
        == Tile::Soft by {
        assert(b.grid.at(x, y) == Tile::Soft);
    }
}

impl GameState {
    fn award(&mut self, player_id: u8, points: u16, out: &mut TickOutcome)
        requires
            old(self)@.wf(),
        ensures
            final(self)@ == spec_award(old(self)@, player_id, points),
            final(self)@.wf(),
            evolves(old(self)@, final(self)@),
            final(out).records@ == old(out).records@ + award_records(
                old(self)@,
                player_id,
                points,
            ),
            final(out).ended == old(out).ended,
    {
        if (player_id as usize) < self.players.len() {
            let mut p = self.players[player_id as usize];
            p.score = p.score.saturating_add(points);
            self.players.set(player_id as usize, p);
            out.records.push(p.stats_record());
        }
        assert(self@ == spec_award(old(self)@, player_id, points));
    }
}

/// Player `i` killed, with kill credit to `killer` unless it is nobody or
/// the player themself.
pub open spec fn spec_kill_by(v: GameView, i: int, killer: u8) -> GameView {
    let k = spec_kill(v, i);
    if v.players[i].alive && killer != NO_PLAYER && killer != v.players[i].id {
        spec_award(k, killer, SCORE_KILL)
    } else {
        k
    }
}

pub open spec fn kill_records(v: GameView, i: int, killer: u8) -> Seq<DeltaRecord> {
    let k = spec_kill(v, i);
    if v.players[i].alive {
        seq![
            DeltaRecord::PlayerDeath { id: v.players[i].id, killer },
            spec_state_record(k.players[i]),
        ] + if killer != NO_PLAYER && killer != v.players[i].id {
            award_records(k, killer, SCORE_KILL)
        } else {
            Seq::empty()
        }
    } else {
        Seq::empty()
    }
}

/// The board after a blast reaches `(x, y)`: a soft block there is gone.
pub open spec fn burn_tile(g: GridView, x: int, y: int) -> GridView {
    if g.at(x, y) == Tile::Soft {
        GridView { cells: g.cells.update(g.index(x, y), Tile::Empty), ..g }
    } else {
        g
    }
}

/// How many ticks a new flame burns for.
pub open spec fn flame_ticks(rules: Rules) -> u8 {
    if rules.flame_duration_ticks > 255 {
        255
    } else {
        rules.flame_duration_ticks as u8
    }
}

/// The cell `s` steps from `(x, y)` in the `i`th direction.
pub open spec fn ray(x: int, y: int, i: int, s: int) -> (int, int) {
    let d = spec_delta(direction_at(i));
    (x + d.0 * s, y + d.1 * s)
}

pub open spec fn ray_tile(g: GridView, x: int, y: int, i: int, s: int) -> Tile {
    g.get_or_solid(ray(x, y, i, s).0, ray(x, y, i, s).1)
}

/// `k` is how far a blast of radius `flame` from `(x, y)` reaches in the
/// `i`th direction: through empty cells, onto and no further than the first
/// soft block, and short of the first solid one.
pub open spec fn is_arm(g: GridView, x: int, y: int, i: int, flame: int, k: int) -> bool {
    &&& 0 <= k <= flame
    &&& forall|s: int| 1 <= s < k ==> #[trigger] ray_tile(g, x, y, i, s) == Tile::Empty
    &&& k >= 1 ==> ray_tile(g, x, y, i, k) != Tile::Solid
    &&& k < flame ==> ((k >= 1 && ray_tile(g, x, y, i, k) == Tile::Soft) || ray_tile(
        g,
        x,
        y,
        i,
        k + 1,
    ) == Tile::Solid)
}

impl GameState {
    fn kill(&mut self, index: usize, killer: u8, out: &mut TickOutcome)
        requires
            old(self)@.wf(),
            index < old(self)@.players.len(),
        ensures
            final(self)@ == spec_kill_by(old(self)@, index as int, killer),
            final(self)@.wf(),
            evolves(old(self)@, final(self)@),
            final(out).records@ == old(out).records@ + kill_records(
                old(self)@,
                index as int,
                killer,
            ),
            final(out).ended == old(out).ended,
    {
        let tick = self.tick;
        let mut player = self.players[index];
        if !player.alive {
            return;
        }
        player.alive = false;
        player.died_at = Some(tick);
        player.move_progress = 0;
        let id = player.id;
        self.players.set(index, player);
        out.records.push(DeltaRecord::PlayerDeath { id, killer });
        out.records.push(player.state_record());
        let ghost mid = self@;
        let ghost mid_records = out.records@;
        proof {
            assert(mid == spec_kill(old(self)@, index as int));
        }
        if killer != NO_PLAYER && killer != id {
            self.award(killer, SCORE_KILL, out);
        }
        proof {
            assert(final(out).records@ =~= old(out).records@ + kill_records(
                old(self)@,
                index as int,
                killer,
            ));
        }
    }

    /// Roll for a power-up where a soft block was destroyed.
    fn maybe_drop_powerup(&mut self, x: u8, y: u8, out: &mut TickOutcome) -> (dropped: bool)
        requires
            old(self)@.wf(),
            on_board(x, y, old(self)@.grid.width, old(self)@.grid.height),
        ensures
            final(self)@.wf(),
            old(self)@.rules.powerup_chance_pct == 0 ==> !dropped,
            old(self)@.rules.powerup_chance_pct >= 100 ==> dropped,
            dropped == pcg_ratio(old(self)@.rng, drop_chance(old(self)@.rules), 100).0,
            !dropped ==> final(self)@ == (GameView {
                rng: pcg_ratio(old(self)@.rng, drop_chance(old(self)@.rules), 100).1,
                ..old(self)@
            }) && *final(out) == *old(out),
            dropped ==> final(self)@ == (GameView {
                powerups: old(self)@.powerups.push(
                    Powerup {
                        id: old(self)@.next_powerup_id,
                        x,
                        y,
                        kind: kind_at(drop_kind(old(self)@).0 as int),
                    },
                ),
                next_powerup_id: next_id(old(self)@.next_powerup_id),
                rng: drop_kind(old(self)@).1,
                ..old(self)@
            }) && final(out).records@ == old(out).records@.push(
                DeltaRecord::PowerupAdd {
                    id: old(self)@.next_powerup_id,
                    x,
                    y,
                    kind: kind_at(drop_kind(old(self)@).0 as int),
                },
            ) && final(out).ended == old(out).ended,
    {
        let pct: u32 = if self.rules.powerup_chance_pct < 100 {
            self.rules.powerup_chance_pct as u32
        } else {
            100
        };
        if !roll_ratio(&mut self.rng, pct, 100) {
            assert(self@ =~= (GameView { rng: pcg_ratio(old(self)@.rng, pct, 100).1, ..old(self)@ }));
            return false;
        }
        let roll = roll_below(&mut self.rng, 3);
        let kind = if roll == 0 {
            PowerupKind::ExtraBomb
        } else if roll == 1 {
            PowerupKind::Flame
        } else {
            PowerupKind::Speed
        };
        let id = self.next_powerup_id;
        let next = id.wrapping_add(1);
        self.next_powerup_id = if next == 0 {
            1
        } else {
            next
        };
        self.powerups.push(Powerup { id, x, y, kind });
        out.records.push(DeltaRecord::PowerupAdd { id, x, y, kind });
        assert(kind == kind_at(roll as int));
        assert(self@.powerups[self@.powerups.len() - 1] == Powerup { id, x, y, kind });
        assert forall|i: int| 0 <= i < self@.powerups.len() implies on_board(
            (#[trigger] self@.powerups[i]).x,
            self@.powerups[i].y,
            self@.grid.width,
            self@.grid.height,
        ) by {
            if i < self@.powerups.len() - 1 {
                assert(self@.powerups[i] == old(self)@.powerups[i]);
            }
        }
        assert(self@.players == old(self)@.players);
        assert(self@.bombs == old(self)@.bombs);
        assert(self@.grid == old(self)@.grid);
        assert(self@.flames == old(self)@.flames);
        assert(self@.sudden_death_order == old(self)@.sudden_death_order);
        assert(self@.sudden_death_filled == old(self)@.sudden_death_filled);
        true
    }
}

/// Every cell set alight so far, and the first bomb on it, is accounted
/// for: its id has detonated or waits in the queue.
pub open spec fn covered(bombs: Seq<Bomb>, lit: Set<(u8, u8)>, done: Seq<u16>, queue: Seq<u16>) -> bool {
    forall|c: (u8, u8)|
        #[trigger] lit.contains(c) ==> match bomb_index_at(bombs, c.0, c.1) {
            Some(j) => done.contains(bombs[j].id) || queue.contains(bombs[j].id),
            None => true,
        }
}

/// A cell that does not read as solid is on the board.
proof fn lemma_open_on_board(g: GridView, x: int, y: int)
    requires
        g.get_or_solid(x, y) != Tile::Solid,
    ensures
        g.in_bounds(x, y),
{
}

/// `q` is `p` with at most its score and its count of bombs in play changed:
/// all a blast can do to a player.
pub open spec fn tallied(p: Player, q: Player) -> bool {
    q == Player { score: q.score, bombs_active: q.bombs_active, ..p }
}

/// Every player of `b` is its counterpart in `a`, tallies aside.
pub open spec fn players_tallied(a: Seq<Player>, b: Seq<Player>) -> bool {
    a.len() == b.len() && forall|i: int| 0 <= i < a.len() ==> tallied(a[i], #[trigger] b[i])
}

/// `b` is the board `a` with every soft block on a `lit` cell destroyed.
pub open spec fn burned(a: GridView, b: GridView, lit: Set<(u8, u8)>) -> bool {
    &&& b.width == a.width
    &&& b.height == a.height
    &&& b.cells.len() == a.cells.len()
    &&& forall|x: int, y: int|
        a.in_bounds(x, y) ==> #[trigger] b.at(x, y) == if lit.contains((x as u8, y as u8))
            && a.at(x, y) == Tile::Soft {
            Tile::Empty
        } else {
            a.at(x, y)
        }
}

proof fn lemma_tallied_trans(a: Seq<Player>, b: Seq<Player>, c: Seq<Player>)
    requires
        players_tallied(a, b),
        players_tallied(b, c),
    ensures
        players_tallied(a, c),
{
    assert forall|i: int| 0 <= i < a.len() implies tallied(a[i], #[trigger] c[i]) by {
        assert(tallied(a[i], b[i]));
        assert(tallied(b[i], c[i]));
    }
}

proof fn lemma_tallied_refl(a: Seq<Player>)
    ensures
        players_tallied(a, a),
{
    assert forall|i: int| 0 <= i < a.len() implies tallied(a[i], #[trigger] a[i]) by {}
}

/// Scoring changes a tally only.
proof fn lemma_award_tallied(v: GameView, pid: u8, points: u16)
    ensures
        players_tallied(v.players, spec_award(v, pid, points).players),
{
    let w = spec_award(v, pid, points).players;
    assert forall|i: int| 0 <= i < v.players.len() implies tallied(v.players[i], #[trigger] w[i]) by {}
}

/// Setting one more on-board cell alight burns its soft block, if any.
proof fn lemma_burned_step(a: GridView, g: GridView, lit: Set<(u8, u8)>, x: u8, y: u8)
    requires
        a.wf(),
        burned(a, g, lit),
        a.in_bounds(x as int, y as int),
    ensures
        burned(a, burn_tile(g, x as int, y as int), lit.insert((x, y))),
{
    let g2 = burn_tile(g, x as int, y as int);
    lemma_cell_index(a.width as int, a.height as int, x as int, y as int, x as int, y as int);
    assert(g2.cells.len() == a.cells.len());
    assert(g2.width == a.width && g2.height == a.height);
    let l2 = lit.insert((x, y));
    assert forall|i: int, j: int| a.in_bounds(i, j) implies #[trigger] g2.at(i, j) == if l2.contains(
        (i as u8, j as u8),
    ) && a.at(i, j) == Tile::Soft {
        Tile::Empty
    } else {
        a.at(i, j)
    } by {
        lemma_cell_index(a.width as int, a.height as int, i, j, x as int, y as int);
        lemma_cell_index(a.width as int, a.height as int, x as int, y as int, x as int, y as int);
        assert(g.at(i, j) == if lit.contains((i as u8, j as u8)) && a.at(i, j) == Tile::Soft {
            Tile::Empty
        } else {
            a.at(i, j)
        });
        assert(g.at(x as int, y as int) == if lit.contains((x, y)) && a.at(x as int, y as int)
            == Tile::Soft {
            Tile::Empty
        } else {
            a.at(x as int, y as int)
        });
        assert(g.index(i, j) == a.index(i, j));
        assert(g.index(x as int, y as int) == a.index(x as int, y as int));
        if i == x && j == y {
            assert((i as u8, j as u8) == (x, y));
        } else {
            assert(g.index(i, j) != g.index(x as int, y as int));
            assert(g2.at(i, j) == g.at(i, j));
            assert((i as u8, j as u8) != (x, y));
        }
    }
    assert(burned(a, g2, l2));
}

/// A board already burned along `lit` holds no soft block on a lit cell.
proof fn lemma_burned_settled(a: GridView, b: GridView, lit: Set<(u8, u8)>)
    requires
        burned(a, b, lit),
    ensures
        burned(b, b, lit),
{
    assert forall|x: int, y: int| b.in_bounds(x, y) implies #[trigger] b.at(x, y) == if lit.contains(
        (x as u8, y as u8),
    ) && b.at(x, y) == Tile::Soft {
        Tile::Empty
    } else {
        b.at(x, y)
    } by {
        assert(a.in_bounds(x, y));
    }
}

/// `b` is the flame map `a` of a board shaped like `g` with every `lit` cell
/// burning for at least `ticks`.
pub open spec fn flamed(g: GridView, a: Seq<u8>, b: Seq<u8>, lit: Set<(u8, u8)>, ticks: u8) -> bool {
    &&& b.len() == a.len()
    &&& forall|x: int, y: int|
        g.in_bounds(x, y) ==> #[trigger] b[y * g.width + x] == if lit.contains((x as u8, y as u8))
            && a[y * g.width + x] < ticks {
            ticks
        } else {
            a[y * g.width + x]
        }
}

proof fn lemma_flamed_step(g: GridView, a: Seq<u8>, f: Seq<u8>, lit: Set<(u8, u8)>, ticks: u8, x: u8, y: u8)
    requires
        g.wf(),
        a.len() == g.width * g.height,
        flamed(g, a, f, lit, ticks),
        g.in_bounds(x as int, y as int),
    ensures
        flamed(
            g,
            a,
            f.update(
                y * g.width + x,
                if f[y * g.width + x] < ticks {
                    ticks
                } else {
                    f[y * g.width + x]
                },
            ),
            lit.insert((x, y)),
            ticks,
        ),
{
    let i0 = y * g.width + x;
    lemma_cell_index(g.width as int, g.height as int, x as int, y as int, x as int, y as int);
    let f2 = f.update(i0, if f[i0] < ticks { ticks } else { f[i0] });
    let l2 = lit.insert((x, y));
    assert forall|i: int, j: int| g.in_bounds(i, j) implies #[trigger] f2[j * g.width + i] == if l2.contains(
        (i as u8, j as u8),
    ) && a[j * g.width + i] < ticks {
        ticks
    } else {
        a[j * g.width + i]
    } by {
        lemma_cell_index(g.width as int, g.height as int, i, j, x as int, y as int);
        assert(f[j * g.width + i] == if lit.contains((i as u8, j as u8)) && a[j * g.width + i] < ticks {
            ticks
        } else {
            a[j * g.width + i]
        });
        if i == x && j == y {
            assert((i as u8, j as u8) == (x, y));
        } else {
            assert((i as u8, j as u8) != (x, y));
        }
    }
    assert(flamed(g, a, f2, l2, ticks));
}

proof fn lemma_flamed_trans(g: GridView, a: Seq<u8>, b: Seq<u8>, c: Seq<u8>, l1: Set<(u8, u8)>, l2: Set<(u8, u8)>, ticks: u8)
    requires
        flamed(g, a, b, l1, ticks),
        flamed(g, b, c, l2, ticks),
        l1.subset_of(l2),
    ensures
        flamed(g, a, c, l2, ticks),
{
    assert forall|x: int, y: int| g.in_bounds(x, y) implies #[trigger] c[y * g.width + x] == if l2.contains(
        (x as u8, y as u8),
    ) && a[y * g.width + x] < ticks {
        ticks
    } else {
        a[y * g.width + x]
    } by {
        assert(b[y * g.width + x] == if l1.contains((x as u8, y as u8)) && a[y * g.width + x] < ticks {
            ticks
        } else {
            a[y * g.width + x]
        });
    }
}

proof fn lemma_flamed_dims(g1: GridView, g2: GridView, a: Seq<u8>, b: Seq<u8>, l: Set<(u8, u8)>, t: u8)
    requires
        flamed(g1, a, b, l, t),
        g1.width == g2.width,
        g1.height == g2.height,
    ensures
        flamed(g2, a, b, l, t),
{
    assert forall|x: int, y: int| g2.in_bounds(x, y) implies #[trigger] b[y * g2.width + x] == if l.contains(
        (x as u8, y as u8),
    ) && a[y * g2.width + x] < t {
        t
    } else {
        a[y * g2.width + x]
    } by {
        assert(g1.in_bounds(x, y));
    }
}

/// Cells already burning long enough are left as they are.
proof fn lemma_flamed_settled(v: GameView, lit: Set<(u8, u8)>)
    requires
        lit_burns(v, lit),
    ensures
        flamed(v.grid, v.flames, v.flames, lit, flame_ticks(v.rules)),
{
    assert forall|x: int, y: int| v.grid.in_bounds(x, y) implies #[trigger] v.flames[y * v.grid.width + x]
        == if lit.contains((x as u8, y as u8)) && v.flames[y * v.grid.width + x] < flame_ticks(v.rules) {
        flame_ticks(v.rules)
    } else {
        v.flames[y * v.grid.width + x]
    } by {
        if lit.contains((x as u8, y as u8)) {
            assert(v.flames[v.cell((x as u8) as int, (y as u8) as int)] >= flame_ticks(v.rules));
        }
    }
}

/// Burning is cumulative.
proof fn lemma_burned_trans(
    a: GridView,
    b: GridView,
    c: GridView,
    l1: Set<(u8, u8)>,
    l2: Set<(u8, u8)>,
)
    requires
        burned(a, b, l1),
        burned(b, c, l2),
        l1.subset_of(l2),
    ensures
        burned(a, c, l2),
{
    assert forall|x: int, y: int| a.in_bounds(x, y) implies #[trigger] c.at(x, y) == if l2.contains(
        (x as u8, y as u8),
    ) && a.at(x, y) == Tile::Soft {
        Tile::Empty
    } else {
        a.at(x, y)
    } by {
        assert(b.at(x, y) == if l1.contains((x as u8, y as u8)) && a.at(x, y) == Tile::Soft {
            Tile::Empty
        } else {
            a.at(x, y)
        });
        assert(b.in_bounds(x, y));
    }
}

/// On board `g`, the blast of `b` reaches `s` steps along the `i`th
/// direction: within its radius, over empty cells only, and onto a cell that
/// is not solid.
pub open spec fn reaches(g: GridView, b: Bomb, i: int, s: int) -> bool {
    &&& 0 <= i < 4
    &&& 1 <= s <= b.flame
    &&& ray_tile(g, b.x as int, b.y as int, i, s) != Tile::Solid
    &&& forall|t: int| 1 <= t < s ==> #[trigger] ray_tile(g, b.x as int, b.y as int, i, t) == Tile::Empty
}

/// The cell `(x, y)` is one that `b`'s blast sets alight on board `g`: its own
/// cell, or a cell its blast reaches.
pub open spec fn in_reach(g: GridView, b: Bomb, x: int, y: int) -> bool {
    ||| (x == b.x && y == b.y)
    ||| exists|i: int, s: int|
        #[trigger] reaches(g, b, i, s) && ray(b.x as int, b.y as int, i, s) == (x, y)
}

/// The cells `b`'s blast sets alight on board `g`.
pub open spec fn blast_set(g: GridView, b: Bomb) -> Set<(u8, u8)> {
    Set::new(|c: (u8, u8)| in_reach(g, b, c.0 as int, c.1 as int))
}

/// How far `b`'s blast reaches in the `i`th direction on board `g`.
pub open spec fn arm(g: GridView, b: Bomb, i: int) -> int {
    choose|k: int| is_arm(g, b.x as int, b.y as int, i, b.flame as int, k)
}

/// The first `k` cells of `b`'s ray in the `i`th direction, nearest first.
pub open spec fn ray_cells(b: Bomb, i: int, k: int) -> Seq<(u8, u8)> {
    Seq::new(k as nat, |t: int| ray_cell(b, i, t + 1))
}

/// The cells `b`'s blast sets alight on board `g`, in the order it sets them
/// alight: its own cell, then each direction's arm outward, directions in
/// `Direction::ALL` order, up to the `di`th.
pub open spec fn blast_order(g: GridView, b: Bomb, di: int) -> Seq<(u8, u8)>
    decreases di,
{
    if di <= 0 {
        seq![(b.x, b.y)]
    } else {
        blast_order(g, b, di - 1) + ray_cells(b, di - 1, arm(g, b, di - 1))
    }
}

/// The cell a step along a ray lands on, as a board coordinate pair.
pub open spec fn ray_cell(b: Bomb, i: int, s: int) -> (u8, u8) {
    (ray(b.x as int, b.y as int, i, s).0 as u8, ray(b.x as int, b.y as int, i, s).1 as u8)
}

/// A blast reaches no further than its arm.
proof fn lemma_reach_within_arm(g: GridView, b: Bomb, i: int, s: int, k: int)
    requires
        is_arm(g, b.x as int, b.y as int, i, b.flame as int, k),
        reaches(g, b, i, s),
    ensures
        s <= k,
{
    if s > k {
        if k >= 1 {
            assert(ray_tile(g, b.x as int, b.y as int, i, k) == Tile::Empty);
        }
        if k + 1 < s {
            assert(ray_tile(g, b.x as int, b.y as int, i, k + 1) == Tile::Empty);
        }
    }
}

/// Every step of an arm is reached.
proof fn lemma_arm_reaches(g: GridView, b: Bomb, i: int, s: int, k: int)
    requires
        0 <= i < 4,
        is_arm(g, b.x as int, b.y as int, i, b.flame as int, k),
        1 <= s <= k,
    ensures
        reaches(g, b, i, s),
{
    if s < k {
        assert(ray_tile(g, b.x as int, b.y as int, i, s) == Tile::Empty);
    }
}

/// A blast has one arm in each direction.
proof fn lemma_arm_unique(g: GridView, b: Bomb, i: int, k: int)
    requires
        0 <= i < 4,
        is_arm(g, b.x as int, b.y as int, i, b.flame as int, k),
    ensures
        arm(g, b, i) == k,
{
    let k2 = arm(g, b, i);
    assert(is_arm(g, b.x as int, b.y as int, i, b.flame as int, k2));
    if k2 >= 1 {
        lemma_arm_reaches(g, b, i, k2, k2);
        lemma_reach_within_arm(g, b, i, k2, k);
    }
    if k >= 1 {
        lemma_arm_reaches(g, b, i, k, k);
        lemma_reach_within_arm(g, b, i, k, k2);
    }
}

/// Burning blocks only lets a blast reach further.
proof fn lemma_reach_grows(g1: GridView, g2: GridView, l: Set<(u8, u8)>, b: Bomb, i: int, s: int)
    requires
        burned(g1, g2, l),
        reaches(g1, b, i, s),
    ensures
        reaches(g2, b, i, s),
{
    assert forall|t: int| 1 <= t < s implies #[trigger] ray_tile(g2, b.x as int, b.y as int, i, t)
        == Tile::Empty by {
        assert(ray_tile(g1, b.x as int, b.y as int, i, t) == Tile::Empty);
        let r = ray(b.x as int, b.y as int, i, t);
        assert(g1.in_bounds(r.0, r.1));
    }
    let r = ray(b.x as int, b.y as int, i, s);
    assert(g1.in_bounds(r.0, r.1));
}

/// So the cells a blast sets alight only grow as blocks burn.
proof fn lemma_in_reach_grows(g1: GridView, g2: GridView, l: Set<(u8, u8)>, b: Bomb, x: int, y: int)
    requires
        burned(g1, g2, l),
        in_reach(g1, b, x, y),
    ensures
        in_reach(g2, b, x, y),
{
    if !(x == b.x && y == b.y) {
        let (i, s): (int, int) = choose|i: int, s: int|
            #[trigger] reaches(g1, b, i, s) && ray(b.x as int, b.y as int, i, s) == (x, y);
        lemma_reach_grows(g1, g2, l, b, i, s);
    }
}


/// The state after a destroyed block at `(x, y)` rolls for a drop.
pub open spec fn drop_view(v: GameView, x: u8, y: u8) -> GameView {
    if pcg_ratio(v.rng, drop_chance(v.rules), 100).0 {
        GameView {
            powerups: v.powerups.push(
                Powerup { id: v.next_powerup_id, x, y, kind: kind_at(drop_kind(v).0 as int) },
            ),
            next_powerup_id: next_id(v.next_powerup_id),
            rng: drop_kind(v).1,
            ..v
        }
    } else {
        GameView { rng: pcg_ratio(v.rng, drop_chance(v.rules), 100).1, ..v }
    }
}

/// What that roll reports.
pub open spec fn drop_records(v: GameView, x: u8, y: u8) -> Seq<DeltaRecord> {
    if pcg_ratio(v.rng, drop_chance(v.rules), 100).0 {
        seq![DeltaRecord::PowerupAdd { id: v.next_powerup_id, x, y, kind: kind_at(drop_kind(v).0 as int) }]
    } else {
        Seq::empty()
    }
}

/// A cell set alight, up to the power-up there: a soft block is destroyed,
/// scored for `owner`, and rolls for a drop.
pub open spec fn burn_view(v: GameView, x: u8, y: u8, owner: u8) -> GameView {
    if v.grid.at(x as int, y as int) == Tile::Soft {
        drop_view(
            spec_award(GameView { grid: burn_tile(v.grid, x as int, y as int), ..v }, owner, SCORE_BLOCK),
            x,
            y,
        )
    } else {
        v
    }
}

/// The first power-up on `(x, y)` gone, if there is one.
pub open spec fn without_first_at(us: Seq<Powerup>, x: u8, y: u8) -> Seq<Powerup> {
    match powerup_index_at(us, x, y) {
        Some(i) => us.remove(i),
        None => us,
    }
}

/// The state after `(x, y)` is set alight by a blast of `owner`'s.
pub open spec fn ignite_view(v: GameView, x: u8, y: u8, owner: u8) -> GameView {
    let b = burn_view(v, x, y, owner);
    let c = v.cell(x as int, y as int);
    GameView {
        powerups: without_first_at(b.powerups, x, y),
        flames: b.flames.update(
            c,
            if b.flames[c] < flame_ticks(v.rules) {
                flame_ticks(v.rules)
            } else {
                b.flames[c]
            },
        ),
        ..b
    }
}

/// What setting `(x, y)` alight reports.
pub open spec fn ignite_records(v: GameView, x: u8, y: u8, owner: u8) -> Seq<DeltaRecord> {
    let b = burn_view(v, x, y, owner);
    let g = GameView { grid: burn_tile(v.grid, x as int, y as int), ..v };
    (if v.grid.at(x as int, y as int) == Tile::Soft {
        seq![DeltaRecord::TileSet { x, y, tile: Tile::Empty }] + award_records(g, owner, SCORE_BLOCK)
            + drop_records(spec_award(g, owner, SCORE_BLOCK), x, y)
    } else {
        Seq::empty()
    }) + match powerup_index_at(b.powerups, x, y) {
        Some(i) => seq![DeltaRecord::PowerupRemove { id: b.powerups[i].id, taken_by: NO_PLAYER }],
        None => Seq::empty(),
    } + seq![DeltaRecord::FlameAdd { x, y, ticks: flame_ticks(v.rules) }]
}

/// The bomb id setting `(x, y)` alight queues, if any.
pub open spec fn ignite_queue(v: GameView, x: u8, y: u8) -> Seq<u16> {
    match bomb_index_at(v.bombs, x, y) {
        Some(j) => seq![v.bombs[j].id],
        None => Seq::empty(),
    }
}

/// The state after the cells `cells` are set alight in order by a blast of
/// `owner`'s.
pub open spec fn ignite_all(v: GameView, cells: Seq<(u8, u8)>, owner: u8) -> GameView
    decreases cells.len(),
{
    if cells.len() == 0 {
        v
    } else {
        ignite_view(ignite_all(v, cells.drop_last(), owner), cells.last().0, cells.last().1, owner)
    }
}

/// What setting those cells alight reports.
pub open spec fn ignite_all_records(v: GameView, cells: Seq<(u8, u8)>, owner: u8) -> Seq<DeltaRecord>
    decreases cells.len(),
{
    if cells.len() == 0 {
        Seq::empty()
    } else {
        ignite_all_records(v, cells.drop_last(), owner) + ignite_records(
            ignite_all(v, cells.drop_last(), owner),
            cells.last().0,
            cells.last().1,
            owner,
        )
    }
}

/// The bomb ids setting those cells alight queues.
pub open spec fn ignite_all_queue(v: GameView, cells: Seq<(u8, u8)>, owner: u8) -> Seq<u16>
    decreases cells.len(),
{
    if cells.len() == 0 {
        Seq::empty()
    } else {
        ignite_all_queue(v, cells.drop_last(), owner) + ignite_queue(
            ignite_all(v, cells.drop_last(), owner),
            cells.last().0,
            cells.last().1,
        )
    }
}

/// The state after bomb `b` goes off: its blast set alight, and the bomb
/// handed back to its owner.
pub open spec fn explode_view(v: GameView, b: Bomb) -> GameView {
    let w = ignite_all(v, blast_order(v.grid, b, 4), b.owner);
    GameView { players: freed(w.players, Some(b)), ..w }
}

/// What bomb `b` going off reports.
pub open spec fn explode_records(v: GameView, b: Bomb) -> Seq<DeltaRecord> {
    seq![
        DeltaRecord::Explosion {
            x: b.x,
            y: b.y,
            up: arm(v.grid, b, 1) as u8,
            down: arm(v.grid, b, 0) as u8,
            left: arm(v.grid, b, 2) as u8,
            right: arm(v.grid, b, 3) as u8,
        },
        DeltaRecord::BombRemove { id: b.id },
    ] + ignite_all_records(v, blast_order(v.grid, b, 4), b.owner)
}

/// The bomb ids bomb `b` going off queues.
pub open spec fn explode_queue(v: GameView, b: Bomb) -> Seq<u16> {
    ignite_all_queue(v, blast_order(v.grid, b, 4), b.owner)
}

/// The percentage a destroyed block drops a power-up with.
pub open spec fn drop_chance(rules: Rules) -> u32 {
    if rules.powerup_chance_pct < 100 {
        rules.powerup_chance_pct as u32
    } else {
        100
    }
}

/// The kind roll of a drop, after the chance roll, and the state it leaves.
pub open spec fn drop_kind(v: GameView) -> (u64, int) {
    pcg_below(pcg_ratio(v.rng, drop_chance(v.rules), 100).1, 3)
}
impl GameState {
    /// Set one cell alight: destroy a soft block there (scoring for `owner`
    /// and maybe dropping a power-up), destroy the first power-up there, light
    /// the flame, and queue the first bomb there.
    #[verifier::spinoff_prover]
    #[verifier::rlimit(80)]
    fn ignite(
        &mut self,
        x: u8,
        y: u8,
        owner: u8,
        out: &mut TickOutcome,
        queue: &mut VecDeque<u16>,
    )
        requires
            old(self)@.wf(),
            on_board(x, y, old(self)@.grid.width, old(self)@.grid.height),
        ensures
            final(self)@ == ignite_view(old(self)@, x, y, owner),
            final(out).records@ == old(out).records@ + ignite_records(old(self)@, x, y, owner),
            final(queue)@ == old(queue)@ + ignite_queue(old(self)@, x, y),
            final(self)@.wf(),
            evolves(old(self)@, final(self)@),
            final(self)@.tick == old(self)@.tick,
            final(self)@.finished == old(self)@.finished,
            final(self)@.bombs == old(self)@.bombs,
            final(self)@.grid == burn_tile(old(self)@.grid, x as int, y as int),
            final(self)@.flames == old(self)@.flames.update(
                old(self)@.cell(x as int, y as int),
                if old(self)@.flames[old(self)@.cell(x as int, y as int)] < flame_ticks(
                    old(self)@.rules,
                ) {
                    flame_ticks(old(self)@.rules)
                } else {
                    old(self)@.flames[old(self)@.cell(x as int, y as int)]
                },
            ),
            final(self)@.players == if old(self)@.grid.at(x as int, y as int) == Tile::Soft {
                spec_award(old(self)@, owner, SCORE_BLOCK).players
            } else {
                old(self)@.players
            },
            final(queue)@ == old(queue)@ + match bomb_index_at(old(self)@.bombs, x, y) {
                Some(j) => seq![old(self)@.bombs[j].id],
                None => Seq::empty(),
            },
            final(out).ended == old(out).ended,
            blast_only(old(out).records@, final(out).records@),
            drops_from_burns(old(self)@, final(self)@, set![(x, y)]),
            blast_frame(old(self)@, final(self)@),
            old(self)@.grid.at(x as int, y as int) == Tile::Soft ==> final(out).records@.len()
                > old(out).records@.len() && final(out).records@[old(out).records@.len() as int] == (
            DeltaRecord::TileSet { x, y, tile: Tile::Empty }),
    {
        let i = self.idx(x, y);
        let ghost start = self@;
        let ghost r0 = out.records@;
        if self.grid.get(x, y) == Tile::Soft {
            self.grid.set(x, y, Tile::Empty);
            out.records.push(DeltaRecord::TileSet { x, y, tile: Tile::Empty });
            proof {
                assert(self@.grid =~= burn_tile(start.grid, x as int, y as int));
                assert(self@ =~= GameView { grid: burn_tile(start.grid, x as int, y as int), ..start });
            }
            let ghost g = self@;
            let ghost r1 = out.records@;
            self.award(owner, SCORE_BLOCK, out);
            let ghost ga = self@;
            let ghost r2 = out.records@;
            self.maybe_drop_powerup(x, y, out);
            proof {
                assert(self@ =~= drop_view(ga, x, y));
                assert(out.records@ =~= r2 + drop_records(ga, x, y));
                assert(out.records@ =~= r0 + (seq![DeltaRecord::TileSet { x, y, tile: Tile::Empty }]
                    + award_records(g, owner, SCORE_BLOCK) + drop_records(spec_award(g, owner, SCORE_BLOCK), x, y)));
            }
        }
        let ghost mid = self@;
        let ghost rm = out.records@;
        assert(mid == burn_view(start, x, y, owner));
        assert(rm =~= r0 + (if start.grid.at(x as int, y as int) == Tile::Soft {
            seq![DeltaRecord::TileSet { x, y, tile: Tile::Empty }] + award_records(
                GameView { grid: burn_tile(start.grid, x as int, y as int), ..start },
                owner,
                SCORE_BLOCK,
            ) + drop_records(
                spec_award(GameView { grid: burn_tile(start.grid, x as int, y as int), ..start }, owner, SCORE_BLOCK),
                x,
                y,
            )
        } else {
            Seq::empty()
        }));
        assert(drops_from_burns(start, mid, set![(x, y)])) by {
            assert forall|k: int| 0 <= k < mid.powerups.len() implies start.powerups.contains(
                #[trigger] mid.powerups[k],
            ) || (set![(x, y)].contains((mid.powerups[k].x, mid.powerups[k].y)) && start.grid.at(
                mid.powerups[k].x as int,
                mid.powerups[k].y as int,
            ) == Tile::Soft) by {
                if k < start.powerups.len() {
                    assert(mid.powerups[k] == start.powerups[k]);
                } else {
                    assert(mid.powerups[k].x == x && mid.powerups[k].y == y);
                    assert((mid.powerups[k].x, mid.powerups[k].y) == (x, y));
                }
            }
        }
        let mut pos: usize = 0;
        while pos < self.powerups.len() && !(self.powerups[pos].x == x && self.powerups[pos].y
            == y)
            invariant
                pos <= self@.powerups.len(),
                self@ == mid,
                forall|j: int| 0 <= j < pos ==> !(#[trigger] mid.powerups[j].x == x && mid.powerups[j].y == y),
            decreases self@.powerups.len() - pos,
        {
            pos = pos + 1;
        }
        proof {
            lemma_powerup_index_at(mid.powerups, x, y);
        }
        if pos < self.powerups.len() {
            assert(powerup_index_at(mid.powerups, x, y) == Some(pos as int));
            let removed = self.powerups.remove(pos);
            out.records.push(DeltaRecord::PowerupRemove { id: removed.id, taken_by: NO_PLAYER });
            assert forall|k: int| 0 <= k < self@.powerups.len() implies on_board(
                (#[trigger] self@.powerups[k]).x,
                self@.powerups[k].y,
                self@.grid.width,
                self@.grid.height,
            ) by {
                if k < pos {
                    assert(self@.powerups[k] == mid.powerups[k]);
                } else {
                    assert(self@.powerups[k] == mid.powerups[k + 1]);
                }
            }
        }
        let ticks: u8 = if self.rules.flame_duration_ticks > 255 {
            255
        } else {
            self.rules.flame_duration_ticks as u8
        };
        if self.flames[i] < ticks {
            self.flames.set(i, ticks);
        }
        out.records.push(DeltaRecord::FlameAdd { x, y, ticks });
        match self.bomb_at(x, y) {
            Some(b) => {
                queue.push_back(b.id);
            },
            None => {},
        }
        proof {
            assert(self@.flames =~= start.flames.update(
                start.cell(x as int, y as int),
                if start.flames[start.cell(x as int, y as int)] < flame_ticks(start.rules) {
                    flame_ticks(start.rules)
                } else {
                    start.flames[start.cell(x as int, y as int)]
                },
            ));
            assert(self@.players == mid.players);
            assert(self@.grid == mid.grid);
            assert(self@.bombs == start.bombs);
            assert(evolves(start, self@));
            assert(self@ =~= ignite_view(start, x, y, owner));
            assert(out.records@ =~= r0 + ignite_records(start, x, y, owner));
        }
    }

    /// How far the blast of `bomb` reaches in each direction, indexed like
    /// `Direction::ALL`. A soft block stops the blast and is destroyed; a
    /// solid wall stops it without being touched.
    #[verifier::spinoff_prover]
    fn blast_arms(&self, bomb: &Bomb) -> (arms: [u8; 4])
        requires
            self@.wf(),
        ensures
            forall|i: int|
                0 <= i < 4 ==> #[trigger] is_arm(
                    self@.grid,
                    bomb.x as int,
                    bomb.y as int,
                    i,
                    bomb.flame as int,
                    arms@[i] as int,
                ),
    {
        let mut arms: [u8; 4] = [0u8; 4];
        let mut i: usize = 0;
        while i < 4
            invariant
                self@.wf(),
                i <= 4,
                arms@.len() == 4,
                forall|j: int|
                    0 <= j < i ==> #[trigger] is_arm(
                        self@.grid,
                        bomb.x as int,
                        bomb.y as int,
                        j,
                        bomb.flame as int,
                        arms@[j] as int,
                    ),
            decreases 4 - i,
        {
            let (dx, dy) = Direction::at(i).delta();
            let mut k: u8 = 0;
            let mut step: u16 = 1;
            let mut done = false;
            while !done && step <= bomb.flame as u16
                invariant
                    self@.wf(),
                    i < 4,
                    (dx, dy) == spec_delta(direction_at(i as int)),
                    1 <= step <= bomb.flame + 1,
                    !done ==> k == step - 1,
                    !done ==> forall|s: int|
                        1 <= s < step ==> #[trigger] ray_tile(
                            self@.grid,
                            bomb.x as int,
                            bomb.y as int,
                            i as int,
                            s,
                        ) == Tile::Empty,
                    done ==> is_arm(
                        self@.grid,
                        bomb.x as int,
                        bomb.y as int,
                        i as int,
                        bomb.flame as int,
                        k as int,
                    ),
                decreases bomb.flame + 1 - step,
            {
                let nx = bomb.x as i32 + dx * step as i32;
                let ny = bomb.y as i32 + dy * step as i32;
                assert((nx as int, ny as int) == ray(bomb.x as int, bomb.y as int, i as int, step as int));
                let t = self.grid.get_or_solid(nx, ny);
                if t == Tile::Solid {
                    done = true;
                } else if t == Tile::Soft {
                    k = step as u8;
                    done = true;
                } else {
                    k = step as u8;
                }
                step = step + 1;
            }
            arms[i] = k;
            i = i + 1;
        }
        arms
    }
}

/// The bombs whose ids are not in `gone`, in their order.
pub open spec fn keep_bombs(bombs: Seq<Bomb>, gone: Seq<u16>) -> Seq<Bomb>
    decreases bombs.len(),
{
    if bombs.len() == 0 {
        Seq::empty()
    } else {
        keep_bombs(bombs.drop_last(), gone) + if gone.contains(bombs.last().id) {
            Seq::empty()
        } else {
            seq![bombs.last()]
        }
    }
}

/// Every fuse one tick shorter, never below zero.
pub open spec fn tick_fuses(bombs: Seq<Bomb>) -> Seq<Bomb> {
    bombs.map_values(|b: Bomb| Bomb { fuse: b.fuse.saturating_sub(1), ..b })
}

/// Nothing is removed when no id is gone.
proof fn lemma_keep_all(bombs: Seq<Bomb>)
    ensures
        keep_bombs(bombs, Seq::empty()) == bombs,
    decreases bombs.len(),
{
    if bombs.len() > 0 {
        lemma_keep_all(bombs.drop_last());
        assert(bombs.drop_last().push(bombs.last()) =~= bombs);
    }
}

/// Every lit cell is on the board and burns for at least a flame's duration.
pub open spec fn lit_burns(v: GameView, lit: Set<(u8, u8)>) -> bool {
    forall|c: (u8, u8)|
        #[trigger] lit.contains(c) ==> on_board(c.0, c.1, v.grid.width, v.grid.height)
            && v.flames[v.cell(c.0 as int, c.1 as int)] >= flame_ticks(v.rules)
}

/// Is `id` in `ids`?
fn contains_id(ids: &Vec<u16>, id: u16) -> (b: bool)
    ensures
        b == ids@.contains(id),
{
    let mut i: usize = 0;
    while i < ids.len()
        invariant
            i <= ids@.len(),
            forall|k: int| 0 <= k < i ==> ids@[k] != id,
        decreases ids@.len() - i,
    {
        if ids[i] == id {
            assert(ids@[i as int] == id);
            return true;
        }
        i = i + 1;
    }
    false
}

/// Index of the first bomb with this id.
fn find_bomb(bombs: &Vec<Bomb>, id: u16) -> (r: Option<usize>)
    ensures
        match r {
            Some(j) => j < bombs@.len() && bombs@[j as int].id == id && forall|k: int|
                0 <= k < j ==> (#[trigger] bombs@[k]).id != id,
            None => forall|k: int| 0 <= k < bombs@.len() ==> (#[trigger] bombs@[k]).id != id,
        },
{
    let mut i: usize = 0;
    while i < bombs.len()
        invariant
            i <= bombs@.len(),
            forall|k: int| 0 <= k < i ==> (#[trigger] bombs@[k]).id != id,
        decreases bombs@.len() - i,
    {
        if bombs[i].id == id {
            return Some(i);
        }
        i = i + 1;
    }
    None
}

/// Some bomb with this id stands on a lit cell.
pub open spec fn lit_bomb_id(bombs: Seq<Bomb>, lit: Set<(u8, u8)>, id: u16) -> bool {
    exists|k: int| 0 <= k < bombs.len() && bombs[k].id == id && lit.contains((bombs[k].x, bombs[k].y))
}

impl GameState {
    /// One bomb goes off: announce the blast, set its cell and arms alight,
    /// and hand the bomb back to its owner.
    fn explode(
        &mut self,
        bomb: Bomb,
        out: &mut TickOutcome,
        queue: &mut VecDeque<u16>,
        Ghost(lit): Ghost<Set<(u8, u8)>>,
    ) -> (lit2: Ghost<Set<(u8, u8)>>)
        requires
            old(self)@.wf(),
            on_board(bomb.x, bomb.y, old(self)@.grid.width, old(self)@.grid.height),
            lit_burns(old(self)@, lit),
            burned(old(self)@.grid, old(self)@.grid, lit),
        ensures
            final(self)@ == explode_view(old(self)@, bomb),
            final(out).records@ == old(out).records@ + explode_records(old(self)@, bomb),
            final(queue)@ == old(queue)@ + explode_queue(old(self)@, bomb),
            final(self)@.wf(),
            burned(old(self)@.grid, final(self)@.grid, lit2@),
            drops_from_burns(old(self)@, final(self)@, lit2@),
            blast_frame(old(self)@, final(self)@),
            flamed(old(self)@.grid, old(self)@.flames, final(self)@.flames, lit2@, flame_ticks(old(self)@.rules)),
            players_tallied(old(self)@.players, final(self)@.players),
            forall|c: (u8, u8)|
                #[trigger] lit2@.contains(c) && !lit.contains(c) && old(self)@.grid.at(
                    c.0 as int,
                    c.1 as int,
                ) == Tile::Soft ==> reports_burn(final(out).records@, old(out).records@.len() as int, c),
            final(out).records@.len() >= old(out).records@.len() + 2,
            final(out).records@[old(out).records@.len() as int + 1] == (DeltaRecord::BombRemove { id: bomb.id }),
            evolves(old(self)@, final(self)@),
            final(self)@.tick == old(self)@.tick,
            final(self)@.finished == old(self)@.finished,
            final(self)@.bombs == old(self)@.bombs,
            lit2@ == lit.union(blast_set(old(self)@.grid, bomb)),
            lit2@.contains((bomb.x, bomb.y)),
            lit.subset_of(lit2@),
            forall|c: (u8, u8)|
                #[trigger] lit2@.contains(c) && !lit.contains(c) ==> in_reach(
                    old(self)@.grid,
                    bomb,
                    c.0 as int,
                    c.1 as int,
                ),
            forall|i: int, s: int|
                #[trigger] reaches(old(self)@.grid, bomb, i, s) ==> lit2@.contains(
                    ray_cell(bomb, i, s),
                ),
            lit_burns(final(self)@, lit2@),
            final(queue)@.len() >= old(queue)@.len(),
            final(queue)@.subrange(0, old(queue)@.len() as int) == old(queue)@,
            forall|n: int|
                old(queue)@.len() <= n < final(queue)@.len() ==> #[trigger] lit_bomb_id(
                    old(self)@.bombs,
                    lit2@,
                    final(queue)@[n],
                ),
            forall|c: (u8, u8)|
                #[trigger] lit2@.contains(c) && !lit.contains(c) ==> match bomb_index_at(
                    old(self)@.bombs,
                    c.0,
                    c.1,
                ) {
                    Some(j) => final(queue)@.contains(old(self)@.bombs[j].id),
                    None => true,
                },
            final(out).ended == old(out).ended,
            blast_only(old(out).records@, final(out).records@),
    {
        let ghost start = self@;
        let ghost q0 = queue@;
        let arms = self.blast_arms(&bomb);
        let ghost g0 = self@.grid;
        out.records.push(
            DeltaRecord::Explosion {
                x: bomb.x,
                y: bomb.y,
                up: arms[1],
                down: arms[0],
                left: arms[2],
                right: arms[3],
            },
        );
        out.records.push(DeltaRecord::BombRemove { id: bomb.id });
        let ghost rem = out.records@;
        let ghost mut lit2 = lit;
        proof {
            lemma_bomb_index_at(start.bombs, bomb.x, bomb.y);
        }
        assert(self@ == start);
        self.ignite(bomb.x, bomb.y, bomb.owner, out, queue);
        proof {
            lemma_arm_unique(g0, bomb, 0, arms@[0] as int);
            lemma_arm_unique(g0, bomb, 1, arms@[1] as int);
            lemma_arm_unique(g0, bomb, 2, arms@[2] as int);
            lemma_arm_unique(g0, bomb, 3, arms@[3] as int);
            let c00 = seq![(bomb.x, bomb.y)];
            assert(blast_order(g0, bomb, 0) == c00);
            assert(c00.drop_last() =~= Seq::<(u8, u8)>::empty());
            assert(c00.len() == 1 && c00.last() == (bomb.x, bomb.y));
            assert(ignite_all(start, Seq::<(u8, u8)>::empty(), bomb.owner) == start);
            assert(ignite_all_records(start, Seq::<(u8, u8)>::empty(), bomb.owner) == Seq::<DeltaRecord>::empty());
            assert(ignite_all_queue(start, Seq::<(u8, u8)>::empty(), bomb.owner) == Seq::<u16>::empty());
            assert(ignite_all(start, c00, bomb.owner) == ignite_view(start, bomb.x, bomb.y, bomb.owner));
            assert(ignite_all_records(start, c00, bomb.owner) =~= ignite_records(start, bomb.x, bomb.y, bomb.owner));
            assert(ignite_all_queue(start, c00, bomb.owner) =~= ignite_queue(start, bomb.x, bomb.y));
            assert(self@ == ignite_all(start, c00, bomb.owner));
            assert(out.records@ =~= rem + ignite_all_records(start, c00, bomb.owner));
            assert(queue@ =~= q0 + ignite_all_queue(start, c00, bomb.owner));
            lemma_burned_step(start.grid, start.grid, lit, bomb.x, bomb.y);
            lemma_drops_trans(start, start, self@, Set::empty(), set![(bomb.x, bomb.y)], lit.insert((bomb.x, bomb.y)));
            lemma_flamed_settled(start, lit);
            lemma_flamed_step(start.grid, start.flames, start.flames, lit, flame_ticks(start.rules), bomb.x, bomb.y);
            if start.grid.at(bomb.x as int, bomb.y as int) == Tile::Soft {
                lemma_award_tallied(start, bomb.owner, SCORE_BLOCK);
            } else {
                lemma_tallied_refl(start.players);
            }
        }
        assert(self@.flames.len() == start.flames.len());
        assert(self@.flames =~= start.flames.update(
            start.cell(bomb.x as int, bomb.y as int),
            if start.flames[start.cell(bomb.x as int, bomb.y as int)] < flame_ticks(start.rules) {
                flame_ticks(start.rules)
            } else {
                start.flames[start.cell(bomb.x as int, bomb.y as int)]
            },
        ));
        proof {
            let c0 = (bomb.x, bomb.y);
            assert forall|c: (u8, u8)| #[trigger] lit2.insert(c0).contains(c) implies on_board(
                c.0,
                c.1,
                self@.grid.width,
                self@.grid.height,
            ) && self@.flames[self@.cell(c.0 as int, c.1 as int)] >= flame_ticks(self@.rules) by {
                if c != c0 {
                    assert(lit2.contains(c));
                    assert(on_board(c.0, c.1, start.grid.width, start.grid.height));
                }
                lemma_cell_index(
                    start.grid.width as int,
                    start.grid.height as int,
                    c.0 as int,
                    c.1 as int,
                    c0.0 as int,
                    c0.1 as int,
                );
                lemma_cell_index(
                    start.grid.width as int,
                    start.grid.height as int,
                    c0.0 as int,
                    c0.1 as int,
                    c0.0 as int,
                    c0.1 as int,
                );
                assert(self@.cell(c.0 as int, c.1 as int) == start.cell(c.0 as int, c.1 as int));
                assert(self@.rules == start.rules);
                if c != c0 {
                    assert(start.flames[start.cell(c.0 as int, c.1 as int)] >= flame_ticks(start.rules));

                } else {
                    assert(self@.flames[start.cell(c.0 as int, c.1 as int)] >= flame_ticks(start.rules));
                }
            }
            lit2 = lit2.insert(c0);
            assert forall|k: int| 0 <= k < q0.len() implies #[trigger] queue@.subrange(
                0,
                q0.len() as int,
            )[k] == q0[k] by {
                assert(queue@[k] == q0[k]);
            }
            assert(queue@.subrange(0, q0.len() as int) =~= q0);
            match bomb_index_at(start.bombs, bomb.x, bomb.y) {
                Some(j) => {
                    assert(queue@[q0.len() as int] == start.bombs[j].id);
                    assert(lit2.contains((start.bombs[j].x, start.bombs[j].y)));
                },
                None => {},
            }
        }
        let mut di: usize = 0;
        while di < 4
            invariant
                di <= 4,
                self@.wf(),
                evolves(start, self@),
                self@.tick == start.tick,
                self@.finished == start.finished,
                self@.bombs == start.bombs,
                self@.grid.width == g0.width,
                self@.grid.height == g0.height,
                burned(g0, self@.grid, lit2),
                g0 == start.grid,
                forall|i: int| 0 <= i < 4 ==> arms@[i] == #[trigger] arm(g0, bomb, i),
                self@ == ignite_all(start, blast_order(g0, bomb, di as int), bomb.owner),
                out.records@ == rem + ignite_all_records(start, blast_order(g0, bomb, di as int), bomb.owner),
                queue@ == q0 + ignite_all_queue(start, blast_order(g0, bomb, di as int), bomb.owner),
                drops_from_burns(start, self@, lit2),
                blast_frame(start, self@),
                flamed(g0, start.flames, self@.flames, lit2, flame_ticks(start.rules)),
                players_tallied(start.players, self@.players),
                forall|i: int|
                    0 <= i < 4 ==> #[trigger] is_arm(
                        g0,
                        bomb.x as int,
                        bomb.y as int,
                        i,
                        bomb.flame as int,
                        arms@[i] as int,
                    ),
                lit2.contains((bomb.x, bomb.y)),
                lit.subset_of(lit2),
                forall|c: (u8, u8)|
                    #[trigger] lit2.contains(c) && !lit.contains(c) ==> in_reach(
                        g0,
                        bomb,
                        c.0 as int,
                        c.1 as int,
                    ),
                forall|j: int, t: int|
                    0 <= j < di && 1 <= t <= arms@[j] ==> #[trigger] lit2.contains(
                        ray_cell(bomb, j, t),
                    ),
                lit_burns(self@, lit2),
                queue@.len() >= q0.len(),
                queue@.subrange(0, q0.len() as int) == q0,
                forall|n: int|
                    q0.len() <= n < queue@.len() ==> #[trigger] lit_bomb_id(start.bombs, lit2, queue@[n]),
                forall|c: (u8, u8)|
                    #[trigger] lit2.contains(c) && !lit.contains(c) ==> match bomb_index_at(
                        start.bombs,
                        c.0,
                        c.1,
                    ) {
                        Some(j) => queue@.contains(start.bombs[j].id),
                        None => true,
                    },
                out.ended == old(out).ended,
                blast_only(old(out).records@, out.records@),
                    grows(rem, out.records@),
                    forall|c: (u8, u8)|
                        #[trigger] lit2.contains(c) && !lit.contains(c) && g0.at(c.0 as int, c.1 as int)
                            == Tile::Soft ==> reports_burn(out.records@, old(out).records@.len() as int, c),
                    rem.len() == old(out).records@.len() + 2,
                    rem[old(out).records@.len() as int + 1] == (DeltaRecord::BombRemove { id: bomb.id }),
            decreases 4 - di,
        {
            let (dx, dy) = Direction::at(di).delta();
            let reach = arms[di];
            assert(is_arm(g0, bomb.x as int, bomb.y as int, di as int, bomb.flame as int, reach as int));
            assert(blast_order(g0, bomb, di as int) + ray_cells(bomb, di as int, 0) =~= blast_order(g0, bomb, di as int));
            let mut step: u16 = 1;
            while step <= reach as u16
                invariant
                    di < 4,
                    (dx, dy) == spec_delta(direction_at(di as int)),
                    is_arm(g0, bomb.x as int, bomb.y as int, di as int, bomb.flame as int, reach as int),
                    1 <= step <= reach + 1,
                    self@.wf(),
                    evolves(start, self@),
                    self@.tick == start.tick,
                    self@.finished == start.finished,
                    self@.bombs == start.bombs,
                    self@.grid.width == g0.width,
                    self@.grid.height == g0.height,
                    burned(g0, self@.grid, lit2),
                g0 == start.grid,
                drops_from_burns(start, self@, lit2),
                blast_frame(start, self@),
                flamed(g0, start.flames, self@.flames, lit2, flame_ticks(start.rules)),
                    players_tallied(start.players, self@.players),
                    lit2.contains((bomb.x, bomb.y)),
                    lit.subset_of(lit2),
                    forall|c: (u8, u8)|
                        #[trigger] lit2.contains(c) && !lit.contains(c) ==> in_reach(
                            g0,
                            bomb,
                            c.0 as int,
                            c.1 as int,
                        ),
                    arms@.len() == 4,
                    reach == arms@[di as int],
                    reach == arm(g0, bomb, di as int),
                    self@ == ignite_all(start, blast_order(g0, bomb, di as int) + ray_cells(bomb, di as int, step - 1), bomb.owner),
                    out.records@ == rem + ignite_all_records(start, blast_order(g0, bomb, di as int) + ray_cells(bomb, di as int, step - 1), bomb.owner),
                    queue@ == q0 + ignite_all_queue(start, blast_order(g0, bomb, di as int) + ray_cells(bomb, di as int, step - 1), bomb.owner),
                    forall|j: int, t: int|
                        0 <= j < di && 1 <= t <= arms@[j] ==> #[trigger] lit2.contains(
                            ray_cell(bomb, j, t),
                        ),
                    forall|t: int| 1 <= t < step ==> #[trigger] lit2.contains(ray_cell(bomb, di as int, t)),
                    lit_burns(self@, lit2),
                    queue@.len() >= q0.len(),
                    queue@.subrange(0, q0.len() as int) == q0,
                    forall|n: int|
                        q0.len() <= n < queue@.len() ==> #[trigger] lit_bomb_id(start.bombs, lit2, queue@[n]),
                    forall|c: (u8, u8)|
                        #[trigger] lit2.contains(c) && !lit.contains(c) ==> match bomb_index_at(
                            start.bombs,
                            c.0,
                            c.1,
                        ) {
                            Some(j) => queue@.contains(start.bombs[j].id),
                            None => true,
                        },
                    out.ended == old(out).ended,
                    blast_only(old(out).records@, out.records@),
                    grows(rem, out.records@),
                    forall|c: (u8, u8)|
                        #[trigger] lit2.contains(c) && !lit.contains(c) && g0.at(c.0 as int, c.1 as int)
                            == Tile::Soft ==> reports_burn(out.records@, old(out).records@.len() as int, c),
                    rem.len() == old(out).records@.len() + 2,
                    rem[old(out).records@.len() as int + 1] == (DeltaRecord::BombRemove { id: bomb.id }),
                decreases reach + 1 - step,
            {
                let nx = bomb.x as i32 + dx * step as i32;
                let ny = bomb.y as i32 + dy * step as i32;
                proof {
                    assert((nx as int, ny as int) == ray(
                        bomb.x as int,
                        bomb.y as int,
                        di as int,
                        step as int,
                    ));
                    if (step as int) < reach {
                        assert(ray_tile(g0, bomb.x as int, bomb.y as int, di as int, step as int)
                            == Tile::Empty);
                    }
                    lemma_open_on_board(g0, nx as int, ny as int);
                }
                let ghost before = self@;
                let ghost qb = queue@;
                let ghost rc = out.records@;
                let ghost pre = blast_order(g0, bomb, di as int) + ray_cells(bomb, di as int, step - 1);
                proof {
                    lemma_bomb_index_at(start.bombs, nx as u8, ny as u8);
                }
                self.ignite(nx as u8, ny as u8, bomb.owner, out, queue);
                proof {
                    let c0 = (nx as u8, ny as u8);
                    let post = blast_order(g0, bomb, di as int) + ray_cells(bomb, di as int, step as int);
                    assert(ray_cells(bomb, di as int, step as int) =~= ray_cells(bomb, di as int, step - 1).push(
                        ray_cell(bomb, di as int, step as int),
                    ));
                    assert(post =~= pre.push(c0));
                    assert(post.drop_last() =~= pre);
                    assert(post.last() == c0);
                    assert(self@ == ignite_all(start, post, bomb.owner));
                    assert(out.records@ =~= rem + ignite_all_records(start, post, bomb.owner));
                    assert(queue@ =~= q0 + ignite_all_queue(start, post, bomb.owner));
                    lemma_burned_step(g0, before.grid, lit2, c0.0, c0.1);
                    lemma_drops_trans(start, before, self@, lit2, set![c0], lit2.insert(c0));
                    lemma_flamed_step(g0, start.flames, before.flames, lit2, flame_ticks(start.rules), c0.0, c0.1);
                    if before.grid.at(c0.0 as int, c0.1 as int) == Tile::Soft {
                        lemma_award_tallied(before, bomb.owner, SCORE_BLOCK);
                    } else {
                        lemma_tallied_refl(before.players);
                    }
                    lemma_tallied_trans(start.players, before.players, self@.players);
                    assert forall|c: (u8, u8)| #[trigger] lit2.insert(c0).contains(c) implies on_board(
                        c.0,
                        c.1,
                        self@.grid.width,
                        self@.grid.height,
                    ) && self@.flames[self@.cell(c.0 as int, c.1 as int)] >= flame_ticks(
                        self@.rules,
                    ) by {
                        if c != c0 {
                            assert(lit2.contains(c));
                            assert(on_board(c.0, c.1, before.grid.width, before.grid.height));
                        }
                        lemma_cell_index(
                            start.grid.width as int,
                            start.grid.height as int,
                            c.0 as int,
                            c.1 as int,
                            c0.0 as int,
                            c0.1 as int,
                        );
                        lemma_cell_index(
                            start.grid.width as int,
                            start.grid.height as int,
                            c0.0 as int,
                            c0.1 as int,
                            c0.0 as int,
                            c0.1 as int,
                        );
                    }
                    assert forall|c: (u8, u8)|
                        #[trigger] lit2.insert(c0).contains(c) && !lit.contains(c) implies match bomb_index_at(
                        start.bombs,
                        c.0,
                        c.1,
                    ) {
                        Some(j) => queue@.contains(start.bombs[j].id),
                        None => true,
                    } by {
                        if c != c0 {
                            match bomb_index_at(start.bombs, c.0, c.1) {
                                Some(j) => {
                                    let k: int = choose|k: int| 0 <= k < qb.len() && qb[k] == start.bombs[j].id;
                                    assert(queue@[k] == qb[k]);
                                },
                                None => {},
                            }
                        } else {
                            match bomb_index_at(start.bombs, c.0, c.1) {
                                Some(j) => {
                                    assert(queue@[qb.len() as int] == start.bombs[j].id);
                                },
                                None => {},
                            }
                        }
                    }
                    lemma_arm_reaches(g0, bomb, di as int, step as int, reach as int);
                    assert(c0 == ray_cell(bomb, di as int, step as int));
                    assert(in_reach(g0, bomb, c0.0 as int, c0.1 as int));
                    let lit_prev = lit2;
                    lit2 = lit2.insert(c0);
                    assert forall|c: (u8, u8)|
                        #[trigger] lit2.contains(c) && !lit.contains(c) && g0.at(c.0 as int, c.1 as int)
                            == Tile::Soft implies reports_burn(out.records@, old(out).records@.len() as int, c) by {
                        if lit_prev.contains(c) {
                            let n: int = choose|n: int|
                                old(out).records@.len() <= n < rc.len() && rc[n] == (DeltaRecord::TileSet {
                                    x: c.0,
                                    y: c.1,
                                    tile: Tile::Empty,
                                });
                            assert(out.records@[n] == rc[n]);
                        } else {
                            assert(c == c0);
                            assert(g0.in_bounds(c.0 as int, c.1 as int));
                            assert(before.grid.at(c.0 as int, c.1 as int) == g0.at(c.0 as int, c.1 as int));
                            assert(out.records@[rc.len() as int] == (DeltaRecord::TileSet {
                                x: c.0,
                                y: c.1,
                                tile: Tile::Empty,
                            }));
                        }
                    }
                    assert forall|n: int| q0.len() <= n < queue@.len() implies #[trigger] lit_bomb_id(
                        start.bombs,
                        lit2,
                        queue@[n],
                    ) by {
                        if n < qb.len() {
                            assert(queue@[n] == qb[n]);
                            assert(lit_bomb_id(start.bombs, lit_prev, qb[n]));
                            let k: int = choose|k: int|
                                0 <= k < start.bombs.len() && start.bombs[k].id == qb[n]
                                    && lit_prev.contains((start.bombs[k].x, start.bombs[k].y));
                            assert(lit2.contains((start.bombs[k].x, start.bombs[k].y)));
                        } else {
                            match bomb_index_at(start.bombs, c0.0, c0.1) {
                                Some(j) => {
                                    assert(queue@[n] == start.bombs[j].id);
                                    assert(lit2.contains((start.bombs[j].x, start.bombs[j].y)));
                                },
                                None => {},
                            }
                        }
                    }
                    assert(queue@.subrange(0, q0.len() as int) =~= q0) by {
                        assert forall|k: int| 0 <= k < q0.len() implies queue@[k] == q0[k] by {
                            assert(queue@[k] == qb[k]);
                            assert(qb.subrange(0, q0.len() as int)[k] == qb[k]);
                        }
                    }
                    lemma_evolves_trans(start, before, self@);
                }
                step = step + 1;
            }
            assert(blast_order(g0, bomb, di + 1) == blast_order(g0, bomb, di as int) + ray_cells(bomb, di as int, reach as int));
            di = di + 1;
        }
        if (bomb.owner as usize) < self.players.len() {
            let ghost before = self@;
            let mut p = self.players[bomb.owner as usize];
            p.bombs_active = p.bombs_active.saturating_sub(1);
            self.players.set(bomb.owner as usize, p);
            proof {
                assert(evolves(before, self@));
                lemma_evolves_trans(start, before, self@);
                assert forall|k: int| 0 <= k < before.players.len() implies tallied(
                    before.players[k],
                    #[trigger] self@.players[k],
                ) by {}
                lemma_tallied_trans(start.players, before.players, self@.players);
            }
        }
        proof {
            assert forall|i: int, t: int| #[trigger] reaches(start.grid, bomb, i, t) implies lit2.contains(
                ray_cell(bomb, i, t),
            ) by {
                assert(is_arm(g0, bomb.x as int, bomb.y as int, i, bomb.flame as int, arms@[i] as int));
                lemma_reach_within_arm(g0, bomb, i, t, arms@[i] as int);
            }
            assert forall|c: (u8, u8)| #[trigger] lit2.contains(c) == lit.union(blast_set(start.grid, bomb)).contains(c) by {
                if in_reach(start.grid, bomb, c.0 as int, c.1 as int) && !(c.0 == bomb.x && c.1 == bomb.y) {
                    let (i, t): (int, int) = choose|i: int, t: int|
                        #[trigger] reaches(start.grid, bomb, i, t) && ray(bomb.x as int, bomb.y as int, i, t) == (c.0 as int, c.1 as int);
                    assert(ray_cell(bomb, i, t) == c);
                }
                if c.0 == bomb.x && c.1 == bomb.y {
                    assert(c == (bomb.x, bomb.y));
                }
            }
            assert(lit2 =~= lit.union(blast_set(start.grid, bomb)));
        }
        proof {
            assert(self@ =~= explode_view(start, bomb));
            assert(out.records@ =~= old(out).records@ + explode_records(start, bomb));
            assert(queue@ =~= q0 + explode_queue(start, bomb));
        }
        Ghost(lit2)
    }
}

/// Every lit cell is set alight, on board `g`, by a bomb that went off.
pub open spec fn lit_by_marked(dec: Seq<Bomb>, marks: Seq<bool>, g: GridView, lit: Set<(u8, u8)>) -> bool {
    forall|c: (u8, u8)|
        #[trigger] lit.contains(c) ==> exists|k: int|
            0 <= k < dec.len() && marks[k] && in_reach(g, dec[k], c.0 as int, c.1 as int)
}

/// Every bomb that went off lit its own cell and all it reaches on board `g`.
pub open spec fn marked_lit(dec: Seq<Bomb>, marks: Seq<bool>, g: GridView, lit: Set<(u8, u8)>) -> bool {
    forall|k: int|
        0 <= k < dec.len() && #[trigger] marks[k] ==> lit.contains((dec[k].x, dec[k].y)) && forall|
            i: int,
            t: int,
        | #[trigger] reaches(g, dec[k], i, t) ==> lit.contains(ray_cell(dec[k], i, t))
}

/// One more bomb going off keeps both accounts of the lit cells.
proof fn lemma_lit_step(
    dec: Seq<Bomb>,
    marks: Seq<bool>,
    j: int,
    a: GridView,
    g1: GridView,
    g2: GridView,
    lit: Set<(u8, u8)>,
    lit2: Set<(u8, u8)>,
)
    requires
        0 <= j < dec.len(),
        marks.len() == dec.len(),
        burned(a, g1, lit),
        burned(g1, g2, lit2),
        lit.subset_of(lit2),
        lit_by_marked(dec, marks, g1, lit),
        marked_lit(dec, marks, a, lit),
        lit2.contains((dec[j].x, dec[j].y)),
        forall|c: (u8, u8)|
            #[trigger] lit2.contains(c) && !lit.contains(c) ==> in_reach(
                g1,
                dec[j],
                c.0 as int,
                c.1 as int,
            ),
        forall|i: int, t: int| #[trigger] reaches(g1, dec[j], i, t) ==> lit2.contains(ray_cell(dec[j], i, t)),
    ensures
        lit_by_marked(dec, marks.update(j, true), g2, lit2),
        marked_lit(dec, marks.update(j, true), a, lit2),
{
    let m2 = marks.update(j, true);
    assert forall|c: (u8, u8)| #[trigger] lit2.contains(c) implies exists|k: int|
        0 <= k < dec.len() && m2[k] && in_reach(g2, dec[k], c.0 as int, c.1 as int) by {
        if lit.contains(c) {
            let k: int = choose|k: int|
                0 <= k < dec.len() && marks[k] && in_reach(g1, dec[k], c.0 as int, c.1 as int);
            lemma_in_reach_grows(g1, g2, lit2, dec[k], c.0 as int, c.1 as int);
            assert(m2[k]);
        } else {
            lemma_in_reach_grows(g1, g2, lit2, dec[j], c.0 as int, c.1 as int);
            assert(m2[j]);
        }
    }
    assert forall|k: int| 0 <= k < dec.len() && #[trigger] m2[k] implies lit2.contains(
        (dec[k].x, dec[k].y),
    ) && forall|i: int, t: int| #[trigger] reaches(a, dec[k], i, t) ==> lit2.contains(
        ray_cell(dec[k], i, t),
    ) by {
        if k == j {
            assert forall|i: int, t: int| #[trigger] reaches(a, dec[k], i, t) implies lit2.contains(
                ray_cell(dec[k], i, t),
            ) by {
                lemma_reach_grows(a, g1, lit, dec[k], i, t);
            }
        } else {
            assert(marks[k]);
        }
    }
}

/// The blasts went off in the order `order` (indices into `dec`, ids
/// `gone`): before the `p`th, `lits[p]` was alight and the board was
/// `grids[p]`, `a` with those cells burned; the `p`th then set alight its
/// whole blast on that board; `lit` is what is alight at the end.
pub open spec fn chain_ok(
    a: GridView,
    dec: Seq<Bomb>,
    gone: Seq<u16>,
    lit: Set<(u8, u8)>,
    order: Seq<int>,
    lits: Seq<Set<(u8, u8)>>,
    grids: Seq<GridView>,
) -> bool {
    &&& order.len() == gone.len()
    &&& lits.len() == order.len() + 1
    &&& grids.len() == order.len()
    &&& lits[0] == Set::<(u8, u8)>::empty()
    &&& lits[order.len() as int] == lit
    &&& forall|p: int|
        0 <= p < order.len() ==> 0 <= #[trigger] order[p] < dec.len() && dec[order[p]].id == gone[p]
            && burned(a, grids[p], lits[p]) && lits[p + 1] == lits[p].union(
            blast_set(grids[p], dec[order[p]]),
        )
}

/// The index of the first bomb with id `id`, if any.
pub open spec fn first_with_id(dec: Seq<Bomb>, id: u16) -> Option<int>
    decreases dec.len(),
{
    if dec.len() == 0 {
        None
    } else {
        match first_with_id(dec.drop_last(), id) {
            Some(j) => Some(j),
            None => if dec.last().id == id {
                Some(dec.len() - 1)
            } else {
                None
            },
        }
    }
}

/// The first bomb with an id has it, and no bomb before it does.
pub proof fn lemma_first_with_id(dec: Seq<Bomb>, id: u16)
    ensures
        match first_with_id(dec, id) {
            Some(j) => 0 <= j < dec.len() && dec[j].id == id && forall|k: int|
                0 <= k < j ==> (#[trigger] dec[k]).id != id,
            None => forall|k: int| 0 <= k < dec.len() ==> (#[trigger] dec[k]).id != id,
        },
    decreases dec.len(),
{
    if dec.len() > 0 {
        lemma_first_with_id(dec.drop_last(), id);
        assert forall|k: int| 0 <= k < dec.len() - 1 implies #[trigger] dec[k] == dec.drop_last()[k] by {}
    }
}

/// How many bombs have an id not yet in `done`.
pub open spec fn count_undone(dec: Seq<Bomb>, done: Seq<u16>) -> nat
    decreases dec.len(),
{
    if dec.len() == 0 {
        0
    } else {
        count_undone(dec.drop_last(), done) + if done.contains(dec.last().id) {
            0nat
        } else {
            1nat
        }
    }
}

/// Marking one more id done never raises the count, and lowers it when a
/// bomb had that id.
pub proof fn lemma_count_undone(dec: Seq<Bomb>, done: Seq<u16>, id: u16, j: int)
    requires
        0 <= j < dec.len(),
        dec[j].id == id,
        !done.contains(id),
    ensures
        count_undone(dec, done.push(id)) < count_undone(dec, done),
    decreases dec.len(),
{
    lemma_count_undone_le(dec.drop_last(), done, id);
    assert(done.push(id).contains(id)) by {
        assert(done.push(id)[done.len() as int] == id);
    }
    if dec.last().id != id {
        lemma_count_undone(dec.drop_last(), done, id, j);
        assert(done.push(id).contains(dec.last().id) == done.contains(dec.last().id)) by {
            if done.push(id).contains(dec.last().id) {
                let n: int = choose|n: int| 0 <= n < done.push(id).len() && done.push(id)[n] == dec.last().id;
                assert(n < done.len());
                assert(done[n] == dec.last().id);
            }
            if done.contains(dec.last().id) {
                let n: int = choose|n: int| 0 <= n < done.len() && done[n] == dec.last().id;
                assert(done.push(id)[n] == dec.last().id);
            }
        }
    }
}

/// Marking an id done never raises the count of bombs not yet done.
pub proof fn lemma_count_undone_le(dec: Seq<Bomb>, done: Seq<u16>, id: u16)
    ensures
        count_undone(dec, done.push(id)) <= count_undone(dec, done),
    decreases dec.len(),
{
    if dec.len() > 0 {
        lemma_count_undone_le(dec.drop_last(), done, id);
        if done.contains(dec.last().id) {
            let n: int = choose|n: int| 0 <= n < done.len() && done[n] == dec.last().id;
            assert(done.push(id)[n] == dec.last().id);
        }
    }
}

/// The chain reaction from here: pop the next queued id; skip it if it
/// went off already or names no bomb; otherwise that bomb goes off, queuing
/// the bombs its blast reaches. The result is the state, the ids that went
/// off in order, and the records.
pub open spec fn chain(v: GameView, dec: Seq<Bomb>, queue: Seq<u16>, done: Seq<u16>) -> (
    GameView,
    Seq<u16>,
    Seq<DeltaRecord>,
)
    decreases count_undone(dec, done), queue.len(),
{
    if queue.len() == 0 {
        (v, done, Seq::empty())
    } else {
        let id = queue[0];
        let rest = queue.subrange(1, queue.len() as int);
        if done.contains(id) {
            chain(v, dec, rest, done)
        } else {
            match first_with_id(dec, id) {
                None => chain(v, dec, rest, done),
                Some(j) => {
                    proof {
                        lemma_first_with_id(dec, id);
                        lemma_count_undone(dec, done, id, j);
                    }
                    let b = dec[j];
                    let next = chain(
                        explode_view(v, b),
                        dec,
                        rest + explode_queue(v, b),
                        done.push(id),
                    );
                    (next.0, next.1, explode_records(v, b) + next.2)
                },
            }
        }
    }
}

/// A queued id that went off already, or names no bomb, is skipped.
proof fn lemma_chain_skip(v: GameView, dec: Seq<Bomb>, q: Seq<u16>, done: Seq<u16>)
    requires
        q.len() > 0,
        done.contains(q[0]) || first_with_id(dec, q[0]) is None,
    ensures
        chain(v, dec, q, done) == chain(v, dec, q.subrange(1, q.len() as int), done),
{
}

/// A queued id naming a bomb that has not gone off sets it off.
proof fn lemma_chain_fire(v: GameView, dec: Seq<Bomb>, q: Seq<u16>, done: Seq<u16>, j: int)
    requires
        q.len() > 0,
        !done.contains(q[0]),
        first_with_id(dec, q[0]) == Some(j),
    ensures
        chain(v, dec, q, done) == ({
            let n = chain(
                explode_view(v, dec[j]),
                dec,
                q.subrange(1, q.len() as int) + explode_queue(v, dec[j]),
                done.push(q[0]),
            );
            (n.0, n.1, explode_records(v, dec[j]) + n.2)
        }),
{
}

/// The ids of the bombs whose fuse has run out, in order.
pub open spec fn expired_ids(dec: Seq<Bomb>) -> Seq<u16>
    decreases dec.len(),
{
    if dec.len() == 0 {
        Seq::empty()
    } else {
        expired_ids(dec.drop_last()) + if dec.last().fuse == 0 {
            seq![dec.last().id]
        } else {
            Seq::empty()
        }
    }
}

/// Detonation from `a`: fuses burn down, the chain runs from the expired
/// bombs, and every bomb that went off is taken off the board. The result is
/// the state, the ids that went off, and the records.
pub open spec fn detonation(a: GameView) -> (GameView, Seq<u16>, Seq<DeltaRecord>) {
    let dec = tick_fuses(a.bombs);
    let c = chain(GameView { bombs: dec, ..a }, dec, expired_ids(dec), Seq::empty());
    (GameView { bombs: keep_bombs(dec, c.1), ..c.0 }, c.1, c.2)
}

/// A bomb with this id had run out of fuse or stands on a lit cell.
pub open spec fn due(dec: Seq<Bomb>, lit: Set<(u8, u8)>, id: u16) -> bool {
    exists|k: int|
        0 <= k < dec.len() && dec[k].id == id && (dec[k].fuse == 0 || lit.contains(
            (dec[k].x, dec[k].y),
        ))
}

/// The `p`th bomb to go off, `gone[p]`, had a bomb with its id that ran out of
/// fuse or that a bomb gone off before it reaches on board `g`.
pub open spec fn set_off(dec: Seq<Bomb>, gone: Seq<u16>, p: int, g: GridView) -> bool {
    exists|k: int|
        0 <= k < dec.len() && dec[k].id == gone[p] && (dec[k].fuse == 0 || exists|q: int, m: int|
            0 <= q < p && 0 <= m < dec.len() && dec[m].id == #[trigger] gone[q] && #[trigger] in_reach(
                g,
                dec[m],
                dec[k].x as int,
                dec[k].y as int,
            ))
}

/// `set_off` only gets easier as blocks burn.
proof fn lemma_set_off_grows(dec: Seq<Bomb>, gone: Seq<u16>, p: int, g1: GridView, g2: GridView, l: Set<(u8, u8)>)
    requires
        set_off(dec, gone, p, g1),
        burned(g1, g2, l),
    ensures
        set_off(dec, gone, p, g2),
{
    let k: int = choose|k: int|
        0 <= k < dec.len() && dec[k].id == gone[p] && (dec[k].fuse == 0 || exists|q: int, m: int|
            0 <= q < p && 0 <= m < dec.len() && dec[m].id == #[trigger] gone[q] && #[trigger] in_reach(
                g1,
                dec[m],
                dec[k].x as int,
                dec[k].y as int,
            ));
    if dec[k].fuse != 0 {
        let (q, m): (int, int) = choose|q: int, m: int|
            0 <= q < p && 0 <= m < dec.len() && dec[m].id == #[trigger] gone[q] && #[trigger] in_reach(
                g1,
                dec[m],
                dec[k].x as int,
                dec[k].y as int,
            );
        lemma_in_reach_grows(g1, g2, l, dec[m], dec[k].x as int, dec[k].y as int);
    }
}

proof fn lemma_due_grows(dec: Seq<Bomb>, l1: Set<(u8, u8)>, l2: Set<(u8, u8)>, id: u16)
    requires
        due(dec, l1, id),
        l1.subset_of(l2),
    ensures
        due(dec, l2, id),
{
}

/// The order in which bombs go off stays justified when one more goes off.
proof fn lemma_order_step(
    dec: Seq<Bomb>,
    marks: Seq<bool>,
    order: Seq<int>,
    gone: Seq<u16>,
    j: int,
    id: u16,
    lit: Set<(u8, u8)>,
    lit2: Set<(u8, u8)>,
    g1: GridView,
    g2: GridView,
)
    requires
        0 <= j < dec.len(),
        dec[j].id == id,
        marks.len() == dec.len(),
        order.len() == gone.len(),
        forall|p: int|
            0 <= p < order.len() ==> 0 <= #[trigger] order[p] < dec.len() && marks[order[p]]
                && gone[p] == dec[order[p]].id,
        forall|k: int| 0 <= k < dec.len() && #[trigger] marks[k] ==> order.contains(k),
        forall|p: int| 0 <= p < order.len() ==> #[trigger] set_off(dec, gone, p, g1),
        due(dec, lit, id),
        lit_by_marked(dec, marks, g1, lit),
        burned(g1, g2, lit2),
    ensures
        forall|p: int| 0 <= p < order.len() + 1 ==> #[trigger] set_off(dec, gone.push(id), p, g2),
{
    let gone2 = gone.push(id);
    assert forall|p: int| 0 <= p < order.len() + 1 implies #[trigger] set_off(dec, gone2, p, g2) by {
        if p < order.len() {
            assert(set_off(dec, gone, p, g1));
            let k: int = choose|k: int|
                0 <= k < dec.len() && dec[k].id == gone[p] && (dec[k].fuse == 0 || exists|q: int, m: int|
                    0 <= q < p && 0 <= m < dec.len() && dec[m].id == #[trigger] gone[q] && #[trigger] in_reach(
                        g1,
                        dec[m],
                        dec[k].x as int,
                        dec[k].y as int,
                    ));
            assert(gone2[p] == gone[p]);
            if dec[k].fuse != 0 {
                let (q, m): (int, int) = choose|q: int, m: int|
                    0 <= q < p && 0 <= m < dec.len() && dec[m].id == #[trigger] gone[q] && #[trigger] in_reach(
                        g1,
                        dec[m],
                        dec[k].x as int,
                        dec[k].y as int,
                    );
                assert(gone2[q] == gone[q]);
                lemma_in_reach_grows(g1, g2, lit2, dec[m], dec[k].x as int, dec[k].y as int);
            }
        } else {
            let k: int = choose|k: int|
                0 <= k < dec.len() && dec[k].id == id && (dec[k].fuse == 0 || lit.contains(
                    (dec[k].x, dec[k].y),
                ));
            assert(gone2[p] == id);
            if dec[k].fuse != 0 {
                let c = (dec[k].x, dec[k].y);
                assert(lit.contains(c));
                let m: int = choose|m: int|
                    0 <= m < dec.len() && marks[m] && in_reach(g1, dec[m], c.0 as int, c.1 as int);
                assert(order.contains(m));
                let q: int = choose|q: int| 0 <= q < order.len() && order[q] == m;
                assert(gone2[q] == dec[m].id);
                lemma_in_reach_grows(g1, g2, lit2, dec[m], c.0 as int, c.1 as int);
            }
        }
    }
}

impl GameState {
    /// Phase B: fuses burn down, and every bomb whose fuse ran out sets off a
    /// chain that resolves inside this one tick: a bomb caught in a blast
    /// detonates in the same tick, whatever its own fuse says.
    ///
    /// Returns the ids that detonated and the cells set alight.
    #[verifier::spinoff_prover]
    #[verifier::rlimit(60)]
    fn detonate_bombs(&mut self, out: &mut TickOutcome) -> (r: Ghost<(Seq<u16>, Set<(u8, u8)>)>)
        requires
            old(self)@.wf(),
        ensures
            final(self)@ == detonation(old(self)@).0,
            r@.0 == detonation(old(self)@).1,
            final(out).records@ == old(out).records@ + detonation(old(self)@).2,
            final(self)@.wf(),
            evolves(old(self)@, final(self)@),
            final(self)@.tick == old(self)@.tick,
            final(self)@.finished == old(self)@.finished,
            final(self)@.bombs == keep_bombs(tick_fuses(old(self)@.bombs), r@.0),
            forall|j: int|
                0 <= j < old(self)@.bombs.len() && (#[trigger] tick_fuses(old(self)@.bombs)[j]).fuse
                    == 0 ==> r@.0.contains(tick_fuses(old(self)@.bombs)[j].id),
            forall|j: int|
                0 <= j < final(self)@.bombs.len() ==> !r@.1.contains(
                    ((#[trigger] final(self)@.bombs[j]).x, final(self)@.bombs[j].y),
                ) && final(self)@.bombs[j].fuse > 0,
            forall|id: u16|
                #[trigger] r@.0.contains(id) ==> exists|j: int|
                    0 <= j < old(self)@.bombs.len() && tick_fuses(old(self)@.bombs)[j].id == id
                        && r@.1.contains(
                        (
                            tick_fuses(old(self)@.bombs)[j].x,
                            tick_fuses(old(self)@.bombs)[j].y,
                        ),
                    ),
            forall|id: u16|
                #[trigger] r@.0.contains(id) ==> exists|j: int|
                    0 <= j < old(self)@.bombs.len() && tick_fuses(old(self)@.bombs)[j].id == id
                        && forall|i: int, t: int|
                        #[trigger] reaches(old(self)@.grid, tick_fuses(old(self)@.bombs)[j], i, t)
                            ==> r@.1.contains(ray_cell(tick_fuses(old(self)@.bombs)[j], i, t)),
            forall|c: (u8, u8)|
                #[trigger] r@.1.contains(c) ==> exists|j: int|
                    0 <= j < old(self)@.bombs.len() && r@.0.contains(
                        tick_fuses(old(self)@.bombs)[j].id,
                    ) && in_reach(
                        final(self)@.grid,
                        tick_fuses(old(self)@.bombs)[j],
                        c.0 as int,
                        c.1 as int,
                    ),
            lit_burns(final(self)@, r@.1),
            burned(old(self)@.grid, final(self)@.grid, r@.1),
            drops_from_burns(old(self)@, final(self)@, r@.1),
            blast_frame(old(self)@, final(self)@),
            exists|order: Seq<int>, lits: Seq<Set<(u8, u8)>>, grids: Seq<GridView>|
                chain_ok(old(self)@.grid, tick_fuses(old(self)@.bombs), r@.0, r@.1, order, lits, grids),
            flamed(old(self)@.grid, old(self)@.flames, final(self)@.flames, r@.1, flame_ticks(old(self)@.rules)),
            players_tallied(old(self)@.players, final(self)@.players),
            forall|c: (u8, u8)|
                #[trigger] r@.1.contains(c) && old(self)@.grid.at(c.0 as int, c.1 as int) == Tile::Soft
                    ==> reports_burn(final(out).records@, old(out).records@.len() as int, c),
            forall|id: u16|
                #[trigger] r@.0.contains(id) ==> reports_removal(
                    final(out).records@,
                    old(out).records@.len() as int,
                    id,
                ),
            forall|p: int|
                0 <= p < r@.0.len() ==> #[trigger] set_off(
                    tick_fuses(old(self)@.bombs),
                    r@.0,
                    p,
                    final(self)@.grid,
                ),
            final(out).ended == old(out).ended,
            blast_only(old(out).records@, final(out).records@),
    {
        let ghost start = self@;
        let mut i: usize = 0;
        while i < self.bombs.len()
            invariant
                i <= self@.bombs.len(),
                self@.bombs.len() == start.bombs.len(),
                forall|k: int| 0 <= k < i ==> #[trigger] self@.bombs[k] == tick_fuses(start.bombs)[k],
                forall|k: int| i <= k < self@.bombs.len() ==> #[trigger] self@.bombs[k] == start.bombs[k],
                self@ == (GameView { bombs: self@.bombs, ..start }),
            decreases self@.bombs.len() - i,
        {
            let mut b = self.bombs[i];
            b.fuse = b.fuse.saturating_sub(1);
            self.bombs.set(i, b);
            i = i + 1;
        }
        let ghost dec = tick_fuses(start.bombs);
        assert(self@.bombs =~= dec);
        let ghost ticked = self@;
        assert(ticked.wf()) by {
            assert forall|k: int| 0 <= k < ticked.bombs.len() implies #[trigger] ticked.bombs[k]
                == (Bomb { fuse: start.bombs[k].fuse.saturating_sub(1), ..start.bombs[k] }) by {}
        }
        let mut queue: VecDeque<u16> = VecDeque::new();
        let mut i: usize = 0;
        while i < self.bombs.len()
            invariant
                self@ == ticked,
                ticked.bombs == dec,
                i <= dec.len(),
                forall|k: int|
                    0 <= k < i && (#[trigger] dec[k]).fuse == 0 ==> queue@.contains(dec[k].id),
                forall|n: int| 0 <= n < queue@.len() ==> #[trigger] due(dec, Set::empty(), queue@[n]),
                queue@ == expired_ids(dec.take(i as int)),
            decreases dec.len() - i,
        {
            proof {
                assert(dec.take(i + 1).drop_last() =~= dec.take(i as int));
                assert(dec.take(i + 1).last() == dec[i as int]);
            }
            if self.bombs[i].fuse == 0 {
                let ghost qb = queue@;
                queue.push_back(self.bombs[i].id);
                proof {
                    assert(queue@[qb.len() as int] == dec[i as int].id);
                    assert forall|n: int| 0 <= n < queue@.len() implies #[trigger] due(
                        dec,
                        Set::empty(),
                        queue@[n],
                    ) by {
                        if n < qb.len() {
                            assert(queue@[n] == qb[n]);
                        } else {
                            assert(dec[i as int].fuse == 0);
                        }
                    }
                    assert forall|k: int|
                        0 <= k < i + 1 && (#[trigger] dec[k]).fuse == 0 implies queue@.contains(dec[k].id) by {
                        if k < i {
                            let m: int = choose|m: int| 0 <= m < qb.len() && qb[m] == dec[k].id;
                            assert(queue@[m] == qb[m]);
                        }
                    }
                }
            }
            i = i + 1;
        }
        assert(dec.take(i as int) =~= dec);
        let ghost q0 = queue@;
        let ghost target = chain(ticked, dec, q0, Seq::empty());
        let ghost rs = out.records@;
        assert(ticked == (GameView { bombs: dec, ..start }));
        if queue.len() == 0 {
            proof {
                lemma_keep_all(dec);
                lemma_evolves_refl(start);
                assert(evolves(start, self@));
                assert forall|j: int| 0 <= j < dec.len() implies (#[trigger] dec[j]).fuse != 0 by {
                    if dec[j].fuse == 0 {
                        assert(queue@.contains(dec[j].id));
                    }
                }
            }
            proof {
                lemma_tallied_refl(start.players);
                assert(burned(start.grid, self@.grid, Set::<(u8, u8)>::empty()));
                assert(lit_burns(start, Set::<(u8, u8)>::empty()));
                lemma_flamed_settled(start, Set::<(u8, u8)>::empty());
                assert forall|k: int| 0 <= k < self@.powerups.len() implies start.powerups.contains(
                    #[trigger] self@.powerups[k],
                ) by {}
            }
            proof {
                let lits0: Seq<Set<(u8, u8)>> = seq![Set::<(u8, u8)>::empty()];
                assert(chain_ok(start.grid, dec, Seq::<u16>::empty(), Set::<(u8, u8)>::empty(), Seq::<int>::empty(), lits0, Seq::<GridView>::empty()));
            }
            proof {
                lemma_keep_all(dec);
                assert(self@ =~= detonation(start).0);
                assert(out.records@ =~= old(out).records@ + detonation(start).2);
            }
            return Ghost((Seq::empty(), Set::empty()));
        }
        let mut detonated: Vec<u16> = Vec::new();
        let ghost mut order: Seq<int> = Seq::empty();
        let ghost mut lits: Seq<Set<(u8, u8)>> = seq![Set::<(u8, u8)>::empty()];
        let ghost mut grids: Seq<GridView> = Seq::empty();
        let ghost mut marks: Seq<bool> = Seq::new(dec.len(), |j: int| false);
        let ghost mut lit: Set<(u8, u8)> = Set::empty();
        proof {
            lemma_tallied_refl(ticked.players);
            assert(burned(ticked.grid, ticked.grid, lit));
            lemma_flamed_settled(ticked, lit);
            assert(drops_from_burns(ticked, ticked, lit)) by {
                assert forall|k: int| 0 <= k < ticked.powerups.len() implies ticked.powerups.contains(
                    #[trigger] ticked.powerups[k],
                ) by {}
            }
            assert(lit =~= Set::<(u8, u8)>::empty());
        }
        while queue.len() > 0
            invariant
                self@.wf(),
                evolves(start, self@),
                self@.tick == start.tick,
                self@.finished == start.finished,
                self@.bombs == dec,
                out.ended == old(out).ended,
                blast_only(old(out).records@, out.records@),
                marks.len() == dec.len(),
                forall|id: u16|
                    #[trigger] detonated@.contains(id) <==> exists|j: int|
                        0 <= j < dec.len() && marks[j] && dec[j].id == id,
                forall|j: int|
                    0 <= j < dec.len() && #[trigger] marks[j] ==> forall|k: int|
                        0 <= k < j ==> dec[k].id != dec[j].id,
                covered(dec, lit, detonated@, queue@),
                forall|k: int|
                    0 <= k < dec.len() && (#[trigger] dec[k]).fuse == 0 ==> detonated@.contains(
                        dec[k].id,
                    ) || queue@.contains(dec[k].id),
                lit_by_marked(dec, marks, self@.grid, lit),
                forall|c: (u8, u8)|
                    #[trigger] lit.contains(c) && ticked.grid.at(c.0 as int, c.1 as int) == Tile::Soft
                        ==> reports_burn(out.records@, old(out).records@.len() as int, c),
                forall|p: int|
                    0 <= p < detonated@.len() ==> reports_removal(
                        out.records@,
                        old(out).records@.len() as int,
                        #[trigger] detonated@[p],
                    ),
                order.len() == detonated@.len(),
                chain_ok(ticked.grid, dec, detonated@, lit, order, lits, grids),
                chain(self@, dec, queue@, detonated@).0 == target.0,
                chain(self@, dec, queue@, detonated@).1 == target.1,
                out.records@ + chain(self@, dec, queue@, detonated@).2 == rs + target.2,
                rs == old(out).records@,
                forall|p: int|
                    0 <= p < order.len() ==> 0 <= #[trigger] order[p] < dec.len() && marks[order[p]]
                        && detonated@[p] == dec[order[p]].id,
                forall|k: int| 0 <= k < dec.len() && #[trigger] marks[k] ==> order.contains(k),
                forall|p: int| 0 <= p < order.len() ==> #[trigger] set_off(dec, detonated@, p, self@.grid),
                forall|n: int| 0 <= n < queue@.len() ==> #[trigger] due(dec, lit, queue@[n]),
                marked_lit(dec, marks, ticked.grid, lit),
                lit_burns(self@, lit),
                burned(ticked.grid, self@.grid, lit),
                players_tallied(ticked.players, self@.players),
                drops_from_burns(ticked, self@, lit),
                blast_frame(ticked, self@),
                ticked.rules == start.rules,
                flamed(ticked.grid, ticked.flames, self@.flames, lit, flame_ticks(ticked.rules)),
            decreases count_false(marks), queue@.len(),
        {
            let ghost qb = queue@;
            let ghost cur = self@;
            let ghost dcur = detonated@;
            let ghost rcur = out.records@;
            let bomb_id = queue.pop_front().unwrap();
            proof {
                assert(queue@ =~= qb.subrange(1, qb.len() as int));
                assert(bomb_id == qb[0]);
                assert(due(dec, lit, qb[0]));
                assert forall|n: int| 0 <= n < queue@.len() implies #[trigger] due(dec, lit, queue@[n]) by {
                    assert(queue@[n] == qb[n + 1]);
                    assert(due(dec, lit, qb[n + 1]));
                }
                assert forall|id: u16| #[trigger] qb.contains(id) && id != bomb_id implies queue@.contains(id) by {
                    let m: int = choose|m: int| 0 <= m < qb.len() && qb[m] == id;
                    assert(m != 0);
                    assert(queue@[m - 1] == qb[m]);
                }
            }
            if contains_id(&detonated, bomb_id) {
                proof {
                    assert forall|c: (u8, u8)| #[trigger] lit.contains(c) implies match bomb_index_at(dec, c.0, c.1) {
                        Some(j) => detonated@.contains(dec[j].id) || queue@.contains(dec[j].id),
                        None => true,
                    } by {
                        match bomb_index_at(dec, c.0, c.1) {
                            Some(j) => {
                                assert(detonated@.contains(dec[j].id) || qb.contains(dec[j].id));
                            },
                            None => {},
                        }
                    }
                    assert forall|k: int|
                        0 <= k < dec.len() && (#[trigger] dec[k]).fuse == 0 implies detonated@.contains(
                        dec[k].id,
                    ) || queue@.contains(dec[k].id) by {
                        assert(detonated@.contains(dec[k].id) || qb.contains(dec[k].id));
                    }
                    lemma_chain_skip(cur, dec, qb, dcur);
                }
                continue;
            }
            let found = find_bomb(&self.bombs, bomb_id);
            let j = match found {
                None => {
                    proof {
                        assert forall|c: (u8, u8)| #[trigger] lit.contains(c) implies match bomb_index_at(dec, c.0, c.1) {
                            Some(j) => detonated@.contains(dec[j].id) || queue@.contains(dec[j].id),
                            None => true,
                        } by {
                            lemma_bomb_index_at(dec, c.0, c.1);
                            match bomb_index_at(dec, c.0, c.1) {
                                Some(j) => {
                                    assert(detonated@.contains(dec[j].id) || qb.contains(dec[j].id));
                                    assert(dec[j].id != bomb_id);
                                },
                                None => {},
                            }
                        }
                        assert forall|k: int|
                            0 <= k < dec.len() && (#[trigger] dec[k]).fuse == 0 implies detonated@.contains(
                            dec[k].id,
                        ) || queue@.contains(dec[k].id) by {
                            assert(detonated@.contains(dec[k].id) || qb.contains(dec[k].id));
                            assert(dec[k].id != bomb_id);
                        }
                        lemma_first_with_id(dec, bomb_id);
                        if first_with_id(dec, bomb_id) is Some {
                            let jj = first_with_id(dec, bomb_id)->0;
                            assert(self.bombs@[jj] == dec[jj]);
                        }
                        lemma_chain_skip(cur, dec, qb, dcur);
                    }
                    continue;
                },
                Some(j) => j,
            };
            let bomb = self.bombs[j];
            proof {
                lemma_first_with_id(dec, bomb_id);
                match first_with_id(dec, bomb_id) {
                    Some(jj) => {
                        if jj < j {
                            assert(self.bombs@[jj] == dec[jj]);
                        } else if jj > j {
                            assert(dec[j as int].id == bomb_id);
                        }
                    },
                    None => {
                        assert(dec[j as int].id == bomb_id);
                    },
                }
                assert(first_with_id(dec, bomb_id) == Some(j as int));
                assert(!dcur.contains(bomb_id)) by {
                    if dcur.contains(bomb_id) {
                        assert(detonated@.contains(bomb_id));
                    }
                }
                lemma_chain_fire(cur, dec, qb, dcur, j as int);
                if marks[j as int] {
                    assert(detonated@.contains(bomb_id));
                }
                lemma_count_false_set(marks, j as int);
            }
            let ghost db = detonated@;
            let ghost mb = marks;
            detonated.push(bomb_id);
            let ghost ob = order;
            proof {
                marks = marks.update(j as int, true);
                order = order.push(j as int);
                assert forall|k: int| 0 <= k < dec.len() && #[trigger] marks[k] implies order.contains(k) by {
                    if k == j {
                        assert(order[ob.len() as int] == k);
                    } else {
                        assert(mb[k]);
                        assert(ob.contains(k));
                        let q: int = choose|q: int| 0 <= q < ob.len() && ob[q] == k;
                        assert(order[q] == k);
                    }
                }
                assert forall|id: u16| #[trigger] detonated@.contains(id) <==> exists|k: int|
                    0 <= k < dec.len() && marks[k] && dec[k].id == id by {
                    if detonated@.contains(id) {
                        let m: int = choose|m: int| 0 <= m < detonated@.len() && detonated@[m] == id;
                        if m < db.len() {
                            assert(db[m] == id);
                            assert(db.contains(id));
                            let k: int = choose|k: int| 0 <= k < dec.len() && mb[k] && dec[k].id == id;
                            assert(marks[k]);
                        } else {
                            assert(marks[j as int] && dec[j as int].id == id);
                        }
                    }
                    if exists|k: int| 0 <= k < dec.len() && marks[k] && dec[k].id == id {
                        let k: int = choose|k: int| 0 <= k < dec.len() && marks[k] && dec[k].id == id;
                        if k == j {
                            assert(detonated@[db.len() as int] == id);
                        } else {
                            assert(mb[k]);
                            assert(db.contains(id));
                            let m: int = choose|m: int| 0 <= m < db.len() && db[m] == id;
                            assert(detonated@[m] == id);
                        }
                    }
                }
                assert forall|k: int| 0 <= k < dec.len() && #[trigger] marks[k] implies forall|m: int|
                    0 <= m < k ==> dec[m].id != dec[k].id by {
                    if k != j {
                        assert(mb[k]);
                    }
                }
            }
            let ghost before = self@;
            let ghost qm = queue@;
            let ghost rbx = out.records@;
            proof {
                lemma_burned_settled(ticked.grid, self@.grid, lit);
            }
            let lit2 = self.explode(bomb, out, &mut queue, Ghost(lit));
            proof {
                assert(before == cur);
                assert(bomb == dec[j as int]);
                assert(qm == qb.subrange(1, qb.len() as int));
                assert(detonated@ == dcur.push(bomb_id));
                assert(rbx == rcur);
                assert(out.records@ + chain(self@, dec, queue@, detonated@).2 =~= rcur + chain(cur, dec, qb, dcur).2);
                lemma_burned_trans(ticked.grid, before.grid, self@.grid, lit, lit2@);
                lemma_drops_trans(ticked, before, self@, lit, lit2@, lit2@);
                assert(before.rules == ticked.rules);
                assert(flamed(before.grid, before.flames, self@.flames, lit2@, flame_ticks(before.rules)));
                lemma_flamed_dims(before.grid, ticked.grid, before.flames, self@.flames, lit2@, flame_ticks(ticked.rules));
                lemma_flamed_trans(ticked.grid, ticked.flames, before.flames, self@.flames, lit, lit2@, flame_ticks(ticked.rules));
                lemma_tallied_trans(ticked.players, before.players, self@.players);
                lemma_evolves_trans(start, before, self@);
                assert(covered(dec, lit2@, detonated@, queue@)) by {
                    assert forall|c: (u8, u8)| #[trigger] lit2@.contains(c) implies match bomb_index_at(dec, c.0, c.1) {
                        Some(k) => detonated@.contains(dec[k].id) || queue@.contains(dec[k].id),
                        None => true,
                    } by {
                        match bomb_index_at(dec, c.0, c.1) {
                            Some(k) => {
                                if lit.contains(c) {
                                    assert(db.contains(dec[k].id) || qb.contains(dec[k].id));
                                    if db.contains(dec[k].id) {
                                        let m: int = choose|m: int| 0 <= m < db.len() && db[m] == dec[k].id;
                                        assert(detonated@[m] == db[m]);
                                    } else if dec[k].id == bomb_id {
                                        assert(detonated@[db.len() as int] == bomb_id);
                                    } else {
                                        assert(qm.contains(dec[k].id));
                                        let m: int = choose|m: int| 0 <= m < qm.len() && qm[m] == dec[k].id;
                                        assert(queue@.subrange(0, qm.len() as int)[m] == qm[m]);
                                        assert(queue@[m] == qm[m]);
                                    }
                                }
                            },
                            None => {},
                        }
                    }
                }
                assert forall|k: int|
                    0 <= k < dec.len() && (#[trigger] dec[k]).fuse == 0 implies detonated@.contains(
                    dec[k].id,
                ) || queue@.contains(dec[k].id) by {
                    assert(db.contains(dec[k].id) || qb.contains(dec[k].id));
                    if db.contains(dec[k].id) {
                        let m: int = choose|m: int| 0 <= m < db.len() && db[m] == dec[k].id;
                        assert(detonated@[m] == db[m]);
                    } else if dec[k].id == bomb_id {
                        assert(detonated@[db.len() as int] == bomb_id);
                    } else {
                        assert(qm.contains(dec[k].id));
                        let m: int = choose|m: int| 0 <= m < qm.len() && qm[m] == dec[k].id;
                        assert(queue@.subrange(0, qm.len() as int)[m] == qm[m]);
                        assert(queue@[m] == qm[m]);
                    }
                }
                assert forall|p: int| 0 <= p < detonated@.len() implies reports_removal(
                    out.records@,
                    old(out).records@.len() as int,
                    #[trigger] detonated@[p],
                ) by {
                    if p < db.len() {
                        assert(detonated@[p] == db[p]);
                        assert(reports_removal(rbx, old(out).records@.len() as int, db[p]));
                        let n: int = choose|n: int|
                            old(out).records@.len() <= n < rbx.len() && rbx[n] == (DeltaRecord::BombRemove { id: db[p] });
                        assert(out.records@[n] == rbx[n]);
                    } else {
                        assert(out.records@[rbx.len() as int + 1] == (DeltaRecord::BombRemove { id: bomb_id }));
                    }
                }
                assert forall|c: (u8, u8)|
                    #[trigger] lit2@.contains(c) && ticked.grid.at(c.0 as int, c.1 as int) == Tile::Soft
                        implies reports_burn(out.records@, old(out).records@.len() as int, c) by {
                    if lit.contains(c) {
                        let n: int = choose|n: int|
                            old(out).records@.len() <= n < rbx.len() && rbx[n] == (DeltaRecord::TileSet {
                                x: c.0,
                                y: c.1,
                                tile: Tile::Empty,
                            });
                        assert(out.records@[n] == rbx[n]);
                    } else {
                        assert(ticked.grid.in_bounds(c.0 as int, c.1 as int));
                        assert(before.grid.at(c.0 as int, c.1 as int) == ticked.grid.at(c.0 as int, c.1 as int));
                    }
                }
                lemma_lit_step(dec, mb, j as int, ticked.grid, before.grid, self@.grid, lit, lit2@);
                let lb = lits;
                let gb = grids;
                lits = lits.push(lit2@);
                grids = grids.push(before.grid);
                assert forall|p: int| 0 <= p < order.len() implies 0 <= #[trigger] order[p] < dec.len()
                    && dec[order[p]].id == detonated@[p] && burned(ticked.grid, grids[p], lits[p])
                    && lits[p + 1] == lits[p].union(blast_set(grids[p], dec[order[p]])) by {
                    if p < ob.len() {
                        assert(order[p] == ob[p]);
                        assert(detonated@[p] == db[p]);
                        assert(lits[p] == lb[p]);
                        assert(lits[p + 1] == lb[p + 1]);
                        assert(grids[p] == gb[p]);
                    } else {
                        assert(order[p] == j);
                        assert(detonated@[p] == bomb_id);
                        assert(lits[p] == lit);
                        assert(grids[p] == before.grid);
                    }
                }
                lemma_order_step(dec, mb, ob, db, j as int, bomb_id, lit, lit2@, before.grid, self@.grid);
                assert forall|n: int| 0 <= n < queue@.len() implies #[trigger] due(dec, lit2@, queue@[n]) by {
                    if n < qm.len() {
                        assert(queue@.subrange(0, qm.len() as int)[n] == qm[n]);
                        assert(queue@[n] == qm[n]);
                        lemma_due_grows(dec, lit, lit2@, qm[n]);
                    } else {
                        assert(lit_bomb_id(dec, lit2@, queue@[n]));
                    }
                }
                lit = lit2@;
            }
        }
        let ghost gone = detonated@;
        let ghost pre = self@;
        let mut kept: Vec<Bomb> = Vec::new();
        let ghost mut origin: Seq<int> = Seq::empty();
        let mut i: usize = 0;
        while i < self.bombs.len()
            invariant
                self@ == pre,
                pre.bombs == dec,
                detonated@ == gone,
                i <= dec.len(),
                kept@ == keep_bombs(dec.take(i as int), gone),
                origin.len() == kept@.len(),
                forall|k: int|
                    0 <= k < origin.len() ==> 0 <= #[trigger] origin[k] < i && kept@[k] == dec[origin[k]],
                forall|k: int, m: int| 0 <= k < m < origin.len() ==> #[trigger] origin[k] < #[trigger] origin[m],
                forall|k: int| 0 <= k < kept@.len() ==> !gone.contains((#[trigger] kept@[k]).id),
            decreases dec.len() - i,
        {
            let b = self.bombs[i];
            proof {
                assert(dec.take(i + 1).drop_last() =~= dec.take(i as int));
            }
            if !contains_id(&detonated, b.id) {
                kept.push(b);
                proof {
                    origin = origin.push(i as int);
                }
            }
            i = i + 1;
        }
        assert(dec.take(i as int) =~= dec);
        self.bombs = kept;
        proof {
            let v = self@;
            assert forall|k: int| 0 <= k < v.bombs.len() implies on_board(
                (#[trigger] v.bombs[k]).x,
                v.bombs[k].y,
                v.grid.width,
                v.grid.height,
            ) by {
                assert(v.bombs[k] == pre.bombs[origin[k]]);
            }
            assert forall|k: int, m: int| 0 <= k < m < v.bombs.len() implies !((#[trigger] v.bombs[k]).x
                == (#[trigger] v.bombs[m]).x && v.bombs[k].y == v.bombs[m].y) by {
                assert(origin[k] < origin[m]);
                assert(v.bombs[k] == pre.bombs[origin[k]]);
                assert(v.bombs[m] == pre.bombs[origin[m]]);
            }
            assert(v.wf());
            assert(evolves(pre, v));
            lemma_evolves_trans(start, pre, v);
            assert forall|k: int| 0 <= k < v.bombs.len() implies !lit.contains(
                ((#[trigger] v.bombs[k]).x, v.bombs[k].y),
            ) && v.bombs[k].fuse > 0 by {
                let o = origin[k];
                let c = (v.bombs[k].x, v.bombs[k].y);
                if lit.contains(c) {
                    lemma_bomb_index_at(dec, c.0, c.1);
                    match bomb_index_at(dec, c.0, c.1) {
                        Some(jj) => {
                            if jj != o {
                                if jj < o {
                                    assert(!(dec[jj].x == dec[o].x && dec[jj].y == dec[o].y));
                                } else {
                                    assert(!(dec[o].x == dec[jj].x && dec[o].y == dec[jj].y));
                                }
                            }
                            assert(gone.contains(dec[jj].id));
                        },
                        None => {},
                    }
                }
                if v.bombs[k].fuse == 0 {
                    assert(dec[o].fuse == 0);
                    assert(gone.contains(dec[o].id));
                }
            }
            assert forall|id: u16| #[trigger] gone.contains(id) implies exists|j: int|
                0 <= j < dec.len() && dec[j].id == id && lit.contains((dec[j].x, dec[j].y)) by {
                let j: int = choose|j: int| 0 <= j < dec.len() && marks[j] && dec[j].id == id;
                assert(lit.contains((dec[j].x, dec[j].y)));
            }
            assert forall|id: u16| #[trigger] gone.contains(id) implies exists|j: int|
                0 <= j < dec.len() && dec[j].id == id && forall|i: int, t: int|
                    #[trigger] reaches(ticked.grid, dec[j], i, t) ==> lit.contains(
                        ray_cell(dec[j], i, t),
                    ) by {
                let j: int = choose|j: int| 0 <= j < dec.len() && marks[j] && dec[j].id == id;
                assert(marks[j]);
            }
            assert forall|c: (u8, u8)| #[trigger] lit.contains(c) implies exists|j: int|
                0 <= j < dec.len() && gone.contains(dec[j].id) && in_reach(
                    v.grid,
                    dec[j],
                    c.0 as int,
                    c.1 as int,
                ) by {
                let j: int = choose|j: int|
                    0 <= j < dec.len() && marks[j] && in_reach(pre.grid, dec[j], c.0 as int, c.1 as int);
                assert(gone.contains(dec[j].id));
            }
        }
        proof {
            assert(chain_ok(start.grid, dec, gone, lit, order, lits, grids));
        }
        Ghost((gone, lit))
    }
}

/// One tick off a flame, never below zero.
pub open spec fn age(f: u8) -> u8 {
    if f > 0 {
        (f - 1) as u8
    } else {
        0
    }
}

/// The cells among the first `n` whose flame goes out this tick, in
/// row-major order.
pub open spec fn expired_cells(flames: Seq<u8>, w: int, n: int) -> Seq<DeltaRecord>
    decreases n,
{
    if n <= 0 {
        Seq::empty()
    } else {
        let k = n - 1;
        expired_cells(flames, w, k) + if flames[k] == 1 {
            seq![DeltaRecord::FlameRemove { x: (k % w) as u8, y: (k / w) as u8 }]
        } else {
            Seq::empty()
        }
    }
}

/// Player `i` drops a bomb where they stand, if alive, under their limit,
/// and no bomb is there yet.
pub open spec fn spec_place_bomb(v: GameView, i: int) -> GameView {
    let p = v.players[i];
    if !p.alive || p.bombs_active >= p.bombs_max || bomb_index_at(v.bombs, p.x, p.y) is Some {
        v
    } else {
        GameView {
            bombs: v.bombs.push(
                Bomb {
                    id: v.next_bomb_id,
                    owner: p.id,
                    x: p.x,
                    y: p.y,
                    fuse: v.rules.bomb_fuse_ticks,
                    flame: p.flame,
                },
            ),
            next_bomb_id: next_id(v.next_bomb_id),
            players: v.players.update(i, Player { bombs_active: (p.bombs_active + 1) as u8, ..p }),
            ..v
        }
    }
}

pub open spec fn place_records(v: GameView, i: int) -> Seq<DeltaRecord> {
    let p = v.players[i];
    if !p.alive || p.bombs_active >= p.bombs_max || bomb_index_at(v.bombs, p.x, p.y) is Some {
        Seq::empty()
    } else {
        seq![
            DeltaRecord::BombAdd {
                id: v.next_bomb_id,
                owner: p.id,
                x: p.x,
                y: p.y,
                fuse: v.rules.bomb_fuse_ticks,
            },
        ]
    }
}

/// May player `index` step onto `(nx, ny)`: an empty cell, no bomb on it,
/// and no other living player in it.
pub open spec fn spec_can_enter(v: GameView, index: int, nx: int, ny: int) -> bool {
    &&& v.grid.get_or_solid(nx, ny) == Tile::Empty
    &&& bomb_index_at(v.bombs, nx as u8, ny as u8) is None
    &&& forall|j: int|
        0 <= j < v.players.len() && j != index ==> !(#[trigger] v.players[j].alive
            && v.players[j].x == nx && v.players[j].y == ny)
}

/// Player `i`'s movement this tick: a step under way advances (and settles
/// when done); a settled player turns toward `intent` and starts a step if
/// the cell ahead can be entered.
pub open spec fn spec_advance(v: GameView, i: int, intent: Option<Direction>) -> GameView {
    let p = v.players[i];
    if !p.alive {
        v
    } else if p.move_progress > 0 {
        let prog = p.move_progress + 1;
        with_player(
            v,
            i,
            if prog >= p.move_total {
                Player { move_progress: 0, move_total: 0, ..p }
            } else {
                Player { move_progress: prog as u8, ..p }
            },
        )
    } else {
        match intent {
            None => v,
            Some(d) => {
                let nx = p.x + spec_delta(d).0;
                let ny = p.y + spec_delta(d).1;
                if spec_can_enter(v, i, nx, ny) {
                    with_player(
                        v,
                        i,
                        Player {
                            dir: d,
                            x: nx as u8,
                            y: ny as u8,
                            move_total: spec_ticks_per_cell_at(v.rules, p.speed),
                            move_progress: 1,
                            ..p
                        },
                    )
                } else {
                    with_player(v, i, Player { dir: d, ..p })
                }
            },
        }
    }
}

pub open spec fn advance_records(v: GameView, i: int, intent: Option<Direction>) -> Seq<
    DeltaRecord,
> {
    let p = v.players[i];
    if !p.alive || (p.move_progress == 0 && intent is None) {
        Seq::empty()
    } else {
        seq![spec_state_record(spec_advance(v, i, intent).players[i])]
    }
}

/// The action player `i` sent this tick; nothing sent reads as `Noop`.
pub open spec fn spec_input(inputs: Seq<Option<Action>>, i: int) -> Action {
    if 0 <= i < inputs.len() {
        match inputs[i] {
            Some(a) => a,
            None => Action::Noop,
        }
    } else {
        Action::Noop
    }
}

/// Bomb placement for the first `n` players, in id order.
pub open spec fn place_all(v: GameView, inputs: Seq<Option<Action>>, n: int) -> GameView
    decreases n,
{
    if n <= 0 {
        v
    } else {
        let w = place_all(v, inputs, n - 1);
        if spec_places_bomb(spec_input(inputs, n - 1)) {
            spec_place_bomb(w, n - 1)
        } else {
            w
        }
    }
}

pub open spec fn place_all_records(v: GameView, inputs: Seq<Option<Action>>, n: int) -> Seq<
    DeltaRecord,
>
    decreases n,
{
    if n <= 0 {
        Seq::empty()
    } else {
        place_all_records(v, inputs, n - 1) + if spec_places_bomb(spec_input(inputs, n - 1)) {
            place_records(place_all(v, inputs, n - 1), n - 1)
        } else {
            Seq::empty()
        }
    }
}

/// Movement for the first `n` players, in id order.
pub open spec fn move_all(v: GameView, inputs: Seq<Option<Action>>, n: int) -> GameView
    decreases n,
{
    if n <= 0 {
        v
    } else {
        spec_advance(move_all(v, inputs, n - 1), n - 1, spec_movement(spec_input(inputs, n - 1)))
    }
}

pub open spec fn move_all_records(v: GameView, inputs: Seq<Option<Action>>, n: int) -> Seq<
    DeltaRecord,
>
    decreases n,
{
    if n <= 0 {
        Seq::empty()
    } else {
        move_all_records(v, inputs, n - 1) + advance_records(
            move_all(v, inputs, n - 1),
            n - 1,
            spec_movement(spec_input(inputs, n - 1)),
        )
    }
}

/// Flames of the right length keep a state well formed.
proof fn lemma_wf_flames(v: GameView, f: Seq<u8>)
    requires
        v.wf(),
        f.len() == v.flames.len(),
    ensures
        (GameView { flames: f, ..v }).wf(),
{
}

impl GameState {
    /// Phase A: every flame burns one tick shorter.
    fn expire_flames(&mut self, out: &mut TickOutcome)
        requires
            old(self)@.wf(),
        ensures
            final(self)@ == (GameView {
                flames: old(self)@.flames.map_values(|f: u8| age(f)),
                ..old(self)@
            }),
            final(out).records@ == old(out).records@ + expired_cells(
                old(self)@.flames,
                old(self)@.grid.width as int,
                old(self)@.grid.width * old(self)@.grid.height,
            ),
            final(out).ended == old(out).ended,
    {
        let ghost start = self@;
        let ghost r0 = out.records@;
        let w = self.grid.width;
        let h = self.grid.height;
        let mut y: u8 = 0;
        while y < h
            invariant
                self@.wf(),
                start.wf(),
                w == start.grid.width,
                h == start.grid.height,
                y <= h,
                self@ == (GameView { flames: self@.flames, ..start }),
                self@.flames.len() == start.flames.len(),
                forall|k: int|
                    0 <= k < start.flames.len() ==> #[trigger] self@.flames[k] == if k < y * w {
                        age(start.flames[k])
                    } else {
                        start.flames[k]
                    },
                out.records@ == r0 + expired_cells(start.flames, w as int, y * w),
                out.ended == old(out).ended,
            decreases h - y,
        {
            let mut x: u8 = 0;
            while x < w
                invariant
                    self@.wf(),
                    start.wf(),
                    w == start.grid.width,
                    h == start.grid.height,
                    y < h,
                    x <= w,
                    self@ == (GameView { flames: self@.flames, ..start }),
                    self@.flames.len() == start.flames.len(),
                    forall|k: int|
                        0 <= k < start.flames.len() ==> #[trigger] self@.flames[k] == if k < y * w
                            + x {
                            age(start.flames[k])
                        } else {
                            start.flames[k]
                        },
                    out.records@ == r0 + expired_cells(start.flames, w as int, y * w + x),
                    out.ended == old(out).ended,
                decreases w - x,
            {
                let i = self.idx(x, y);
                proof {
                    vstd::arithmetic::div_mod::lemma_fundamental_div_mod_converse(
                        y * w + x,
                        w as int,
                        y as int,
                        x as int,
                    );
                }
                if self.flames[i] != 0 {
                    let f = self.flames[i] - 1;
                    self.flames.set(i, f);
                    if f == 0 {
                        out.records.push(DeltaRecord::FlameRemove { x, y });
                    }
                }
                proof {
                    lemma_wf_flames(start, self@.flames);
                }
                x = x + 1;
            }
            y = y + 1;
            assert((y - 1) * w + w == y * w) by (nonlinear_arith);
        }
        assert(y * w == w * h) by (nonlinear_arith)
            requires
                y == h,
        ;
        assert(self@.flames =~= start.flames.map_values(|f: u8| age(f)));
        assert(self@ =~= (GameView { flames: start.flames.map_values(|f: u8| age(f)), ..start }));
    }

    fn try_place_bomb(&mut self, index: usize, out: &mut TickOutcome)
        requires
            old(self)@.wf(),
            index < old(self)@.players.len(),
        ensures
            final(self)@ == spec_place_bomb(old(self)@, index as int),
            final(self)@.wf(),
            evolves(old(self)@, final(self)@),
            final(out).records@ == old(out).records@ + place_records(old(self)@, index as int),
            final(out).ended == old(out).ended,
    {
        let player = self.players[index];
        if !player.alive || player.bombs_active >= player.bombs_max {
            return;
        }
        let (x, y, owner, flame) = (player.x, player.y, player.id, player.flame);
        if self.bomb_at(x, y).is_some() {
            return;
        }
        proof {
            lemma_bomb_index_at(self@.bombs, x, y);
        }
        let ghost start = self@;
        let id = self.next_bomb_id;
        let next = id.wrapping_add(1);
        self.next_bomb_id = if next == 0 {
            1
        } else {
            next
        };
        let fuse = self.rules.bomb_fuse_ticks;
        self.bombs.push(Bomb { id, owner, x, y, fuse, flame });
        let mut p = self.players[index];
        p.bombs_active = p.bombs_active + 1;
        self.players.set(index, p);
        out.records.push(DeltaRecord::BombAdd { id, owner, x, y, fuse });
        proof {
            assert(self@ =~= spec_place_bomb(start, index as int));
            let v = self@;
            assert forall|k: int| 0 <= k < v.bombs.len() implies on_board(
                (#[trigger] v.bombs[k]).x,
                v.bombs[k].y,
                v.grid.width,
                v.grid.height,
            ) by {
                if k < start.bombs.len() {
                    assert(v.bombs[k] == start.bombs[k]);
                }
            }
            assert forall|k: int, m: int| 0 <= k < m < v.bombs.len() implies !((#[trigger] v.bombs[k]).x
                == (#[trigger] v.bombs[m]).x && v.bombs[k].y == v.bombs[m].y) by {
                assert(v.bombs[k] == start.bombs[k]);
                if m < start.bombs.len() {
                    assert(v.bombs[m] == start.bombs[m]);
                }
            }
            assert forall|k: int| 0 <= k < v.players.len() implies (#[trigger] v.players[k]).id == k
                && player_ok(v.players[k], v.grid.width, v.grid.height) by {
                if k != index {
                    assert(v.players[k] == start.players[k]);
                }
            }
            assert forall|k: int, m: int|
                0 <= k < m < v.players.len() && (#[trigger] v.players[k]).alive
                    && (#[trigger] v.players[m]).alive implies !(v.players[k].x == v.players[m].x
                && v.players[k].y == v.players[m].y) by {
                assert(start.players[k].alive && start.players[m].alive);
            }
        }
    }
}

impl GameState {
    fn can_enter(&self, index: usize, nx: i32, ny: i32) -> (b: bool)
        requires
            self@.wf(),
        ensures
            b == spec_can_enter(self@, index as int, nx as int, ny as int),
    {
        if self.grid.get_or_solid(nx, ny) != Tile::Empty {
            return false;
        }
        proof {
            lemma_open_on_board(self@.grid, nx as int, ny as int);
        }
        let (cx, cy) = (nx as u8, ny as u8);
        if self.bomb_at(cx, cy).is_some() {
            return false;
        }
        let mut i: usize = 0;
        while i < self.players.len()
            invariant
                i <= self@.players.len(),
                cx as int == nx as int,
                cy as int == ny as int,
                forall|j: int|
                    0 <= j < i && j != index ==> !(#[trigger] self@.players[j].alive
                        && self@.players[j].x == cx && self@.players[j].y == cy),
            decreases self@.players.len() - i,
        {
            let p = &self.players[i];
            if i != index && p.alive && p.x == cx && p.y == cy {
                assert(self@.players[i as int].alive && self@.players[i as int].x == nx
                    && self@.players[i as int].y == ny);
                return false;
            }
            i = i + 1;
        }
        true
    }

    fn advance_player(&mut self, index: usize, intent: Option<Direction>, out: &mut TickOutcome)
        requires
            old(self)@.wf(),
            index < old(self)@.players.len(),
        ensures
            final(self)@ == spec_advance(old(self)@, index as int, intent),
            final(self)@.wf(),
            evolves(old(self)@, final(self)@),
            final(out).records@ == old(out).records@ + advance_records(
                old(self)@,
                index as int,
                intent,
            ),
            final(out).ended == old(out).ended,
    {
        let ghost start = self@;
        let mut p = self.players[index];
        if !p.alive {
            return;
        }
        if p.is_moving() {
            p.move_progress = p.move_progress + 1;
            if p.move_progress >= p.move_total {
                p.move_progress = 0;
                p.move_total = 0;
            }
            self.players.set(index, p);
            out.records.push(p.state_record());
            proof {
                assert(self@ =~= spec_advance(start, index as int, intent));
                lemma_wf_player(start, index as int, p);
            }
            return;
        }
        let dir = match intent {
            Some(d) => d,
            None => {
                return;
            },
        };
        let (dx, dy) = dir.delta();
        let nx = p.x as i32 + dx;
        let ny = p.y as i32 + dy;
        p.dir = dir;
        let enter = self.can_enter(index, nx, ny);
        if enter {
            let total = self.rules.ticks_per_cell_at(p.speed);
            p.x = nx as u8;
            p.y = ny as u8;
            p.move_total = total;
            p.move_progress = 1;
        }
        self.players.set(index, p);
        out.records.push(p.state_record());
        proof {
            assert(self@ =~= spec_advance(start, index as int, intent));
            if enter {
                lemma_open_on_board(start.grid, nx as int, ny as int);
            }
            lemma_wf_player(start, index as int, p);
        }
    }
}

/// Replacing a player by one that keeps its id, stays on the board and
/// respects the step counters, and whose cell no other living player holds,
/// keeps a state well formed.
proof fn lemma_wf_player(v: GameView, i: int, p: Player)
    requires
        v.wf(),
        0 <= i < v.players.len(),
        p.id == i,
        player_ok(p, v.grid.width, v.grid.height),
        p.alive ==> forall|j: int|
            0 <= j < v.players.len() && j != i && (#[trigger] v.players[j]).alive ==> !(
            v.players[j].x == p.x && v.players[j].y == p.y),
    ensures
        with_player(v, i, p).wf(),
{
    let u = with_player(v, i, p);
    assert forall|k: int, m: int|
        0 <= k < m < u.players.len() && (#[trigger] u.players[k]).alive
            && (#[trigger] u.players[m]).alive implies !(u.players[k].x == u.players[m].x
        && u.players[k].y == u.players[m].y) by {
        if k != i && m != i {
            assert(v.players[k].alive && v.players[m].alive);
        } else if k == i {
            assert(v.players[m].alive);
        } else {
            assert(v.players[k].alive);
        }
    }
}

/// The action player `id` sent, `Noop` when nothing arrived.
fn input_at(inputs: &[Option<Action>], id: usize) -> (a: Action)
    ensures
        a == spec_input(inputs@, id as int),
{
    if id < inputs.len() {
        match inputs[id] {
            Some(a) => a,
            None => Action::Noop,
        }
    } else {
        Action::Noop
    }
}

impl GameState {
    /// Phase C: bombs for everyone first, then movement, each in id order,
    /// so dropping a bomb and stepping away in the same action always works.
    fn apply_inputs(&mut self, inputs: &[Option<Action>], out: &mut TickOutcome)
        requires
            old(self)@.wf(),
        ensures
            final(self)@ == move_all(
                place_all(old(self)@, inputs@, old(self)@.players.len() as int),
                inputs@,
                old(self)@.players.len() as int,
            ),
            final(self)@.wf(),
            evolves(old(self)@, final(self)@),
            final(out).records@ == old(out).records@ + place_all_records(
                old(self)@,
                inputs@,
                old(self)@.players.len() as int,
            ) + move_all_records(
                place_all(old(self)@, inputs@, old(self)@.players.len() as int),
                inputs@,
                old(self)@.players.len() as int,
            ),
            final(out).ended == old(out).ended,
    {
        let ghost start = self@;
        let ghost r0 = out.records@;
        let n = self.players.len();
        let mut id: usize = 0;
        while id < n
            invariant
                id <= n,
                n == start.players.len(),
                self@ == place_all(start, inputs@, id as int),
                self@.wf(),
                evolves(start, self@),
                out.records@ == r0 + place_all_records(start, inputs@, id as int),
                out.ended == old(out).ended,
            decreases n - id,
        {
            let action = input_at(inputs, id);
            if action.places_bomb() {
                let ghost before = self@;
                self.try_place_bomb(id, out);
                proof {
                    lemma_evolves_trans(start, before, self@);
                }
            }
            id = id + 1;
            assert(out.records@ =~= r0 + place_all_records(start, inputs@, id as int));
        }
        let ghost placed = self@;
        let ghost r1 = out.records@;
        let mut id: usize = 0;
        while id < n
            invariant
                id <= n,
                n == start.players.len(),
                self@ == move_all(placed, inputs@, id as int),
                self@.wf(),
                evolves(start, self@),
                out.records@ == r1 + move_all_records(placed, inputs@, id as int),
                out.ended == old(out).ended,
            decreases n - id,
        {
            let action = input_at(inputs, id);
            let ghost before = self@;
            self.advance_player(id, action.movement(), out);
            proof {
                lemma_evolves_trans(start, before, self@);
            }
            id = id + 1;
            assert(out.records@ =~= r1 + move_all_records(placed, inputs@, id as int));
        }
        assert(out.records@ =~= r0 + place_all_records(start, inputs@, n as int) + move_all_records(
            placed,
            inputs@,
            n as int,
        ));
    }
}

/// Is player `i` alive and standing in fire?
pub open spec fn in_fire(v: GameView, i: int) -> bool {
    let p = v.players[i];
    p.alive && v.flames[v.cell(p.x as int, p.y as int)] > 0
}

/// The first `n` players, each killed if standing in fire in `v`.
pub open spec fn burn_all(v: GameView, n: int) -> GameView
    decreases n,
{
    if n <= 0 {
        v
    } else if in_fire(v, n - 1) {
        spec_kill(burn_all(v, n - 1), n - 1)
    } else {
        burn_all(v, n - 1)
    }
}

pub open spec fn burn_records(v: GameView, n: int) -> Seq<DeltaRecord>
    decreases n,
{
    if n <= 0 {
        Seq::empty()
    } else {
        burn_records(v, n - 1) + if in_fire(v, n - 1) {
            kill_records(burn_all(v, n - 1), n - 1, NO_PLAYER)
        } else {
            Seq::empty()
        }
    }
}

/// Killing the first `n` players leaves the others, the flames and the
/// tick as they were.
proof fn lemma_burn_all_frame(v: GameView, n: int)
    requires
        0 <= n <= v.players.len(),
    ensures
        burn_all(v, n).players.len() == v.players.len(),
        burn_all(v, n).flames == v.flames,
        burn_all(v, n).tick == v.tick,
        burn_all(v, n).grid == v.grid,
        forall|j: int| n <= j < v.players.len() ==> #[trigger] burn_all(v, n).players[j] == v.players[j],
    decreases n,
{
    if n > 0 {
        lemma_burn_all_frame(v, n - 1);
    }
}

impl GameState {
    /// Phase E: anyone standing in fire dies. Deaths are self-credited.
    fn burn_players(&mut self, out: &mut TickOutcome)
        requires
            old(self)@.wf(),
        ensures
            final(self)@ == burn_all(old(self)@, old(self)@.players.len() as int),
            final(self)@.wf(),
            evolves(old(self)@, final(self)@),
            final(out).records@ == old(out).records@ + burn_records(
                old(self)@,
                old(self)@.players.len() as int,
            ),
            final(out).ended == old(out).ended,
    {
        let ghost start = self@;
        let ghost r0 = out.records@;
        let n = self.players.len();
        let mut i: usize = 0;
        while i < n
            invariant
                i <= n,
                n == start.players.len(),
                start.wf(),
                self@ == burn_all(start, i as int),
                self@.wf(),
                evolves(start, self@),
                out.records@ == r0 + burn_records(start, i as int),
                out.ended == old(out).ended,
            decreases n - i,
        {
            proof {
                lemma_burn_all_frame(start, i as int);
            }
            let p = self.players[i];
            let burning = p.alive && self.flame_at(p.x, p.y) > 0;
            if burning {
                let ghost before = self@;
                self.kill(i, NO_PLAYER, out);
                proof {
                    lemma_evolves_trans(start, before, self@);
                }
            }
            i = i + 1;
            assert(out.records@ =~= r0 + burn_records(start, i as int));
        }
    }
}

/// Sudden death closes a cell this tick: it has begun, the period has come
/// round, and cells are left to close.
pub open spec fn sudden_death_due(v: GameView) -> bool {
    &&& v.tick >= v.rules.sudden_death_tick
    &&& (v.tick - v.rules.sudden_death_tick) % (SUDDEN_DEATH_PERIOD as int) == 0
    &&& v.sudden_death_filled < v.sudden_death_order.len()
}

/// The bombs not on `(x, y)`, in order.
pub open spec fn bombs_off(s: Seq<Bomb>, x: u8, y: u8) -> Seq<Bomb>
    decreases s.len(),
{
    if s.len() == 0 {
        Seq::empty()
    } else {
        bombs_off(s.drop_last(), x, y) + if s.last().x == x && s.last().y == y {
            Seq::empty()
        } else {
            seq![s.last()]
        }
    }
}

/// The power-ups not on `(x, y)`, in order.
pub open spec fn powerups_off(s: Seq<Powerup>, x: u8, y: u8) -> Seq<Powerup>
    decreases s.len(),
{
    if s.len() == 0 {
        Seq::empty()
    } else {
        powerups_off(s.drop_last(), x, y) + if s.last().x == x && s.last().y == y {
            Seq::empty()
        } else {
            seq![s.last()]
        }
    }
}

/// The first bomb on `(x, y)`, if any.
pub open spec fn bomb_on(bombs: Seq<Bomb>, x: u8, y: u8) -> Option<Bomb> {
    match bomb_index_at(bombs, x, y) {
        Some(j) => Some(bombs[j]),
        None => None,
    }
}

/// The players after bomb `b`, if any, has gone off: its owner may place
/// another.
pub open spec fn freed(players: Seq<Player>, b: Option<Bomb>) -> Seq<Player> {
    match b {
        Some(bomb) => if (bomb.owner as int) < players.len() {
            players.update(
                bomb.owner as int,
                Player {
                    bombs_active: players[bomb.owner as int].bombs_active.saturating_sub(1),
                    ..players[bomb.owner as int]
                },
            )
        } else {
            players
        },
        None => players,
    }
}

/// The removal records of the power-ups on `(x, y)`, in order.
pub open spec fn powerups_off_records(s: Seq<Powerup>, x: u8, y: u8) -> Seq<DeltaRecord>
    decreases s.len(),
{
    if s.len() == 0 {
        Seq::empty()
    } else {
        powerups_off_records(s.drop_last(), x, y) + if s.last().x == x && s.last().y == y {
            seq![DeltaRecord::PowerupRemove { id: s.last().id, taken_by: NO_PLAYER }]
        } else {
            Seq::empty()
        }
    }
}

/// The next cell of the spiral turned solid, with everything on it gone: a
/// bomb there is buried unexploded, and its owner's count of bombs in play
/// is left as it was.
pub open spec fn walled(v: GameView) -> GameView {
    let c = v.sudden_death_order[v.sudden_death_filled];
    GameView {
        grid: GridView {
            cells: v.grid.cells.update(v.grid.index(c.0 as int, c.1 as int), Tile::Solid),
            ..v.grid
        },
        bombs: bombs_off(v.bombs, c.0, c.1),
        powerups: powerups_off(v.powerups, c.0, c.1),
        sudden_death_filled: v.sudden_death_filled + 1,
        ..v
    }
}

/// Phase F's effect: when due, the next spiral cell is walled off and the
/// first living player on it dies.
pub open spec fn spec_sudden_death(v: GameView) -> GameView {
    if !sudden_death_due(v) {
        v
    } else {
        let c = v.sudden_death_order[v.sudden_death_filled];
        match player_index_at(v.players, c.0, c.1) {
            Some(i) => spec_kill(walled(v), i),
            None => walled(v),
        }
    }
}

pub open spec fn sudden_death_records(v: GameView) -> Seq<DeltaRecord> {
    if !sudden_death_due(v) {
        Seq::empty()
    } else {
        let c = v.sudden_death_order[v.sudden_death_filled];
        seq![DeltaRecord::TileSet { x: c.0, y: c.1, tile: Tile::Solid }] + match bomb_on(
            v.bombs,
            c.0,
            c.1,
        ) {
            Some(b) => seq![DeltaRecord::BombRemove { id: b.id }],
            None => Seq::empty(),
        } + powerups_off_records(v.powerups, c.0, c.1) + match player_index_at(
            v.players,
            c.0,
            c.1,
        ) {
            Some(i) => kill_records(walled(v), i, NO_PLAYER),
            None => Seq::empty(),
        }
    }
}

/// The power-ups not on `(x, y)`, reporting the removal of each one that is.
fn powerups_cleared(ps: &Vec<Powerup>, x: u8, y: u8, out: &mut TickOutcome) -> (kept: Vec<Powerup>)
    ensures
        kept@ == powerups_off(ps@, x, y),
        forall|k: int|
            0 <= k < kept@.len() ==> exists|j: int| 0 <= j < ps@.len() && ps@[j] == #[trigger] kept@[k],
        final(out).records@ == old(out).records@ + powerups_off_records(ps@, x, y),
        final(out).ended == old(out).ended,
{
    let mut kept: Vec<Powerup> = Vec::new();
    let ghost r1 = out.records@;
    let mut i: usize = 0;
    while i < ps.len()
        invariant
            i <= ps@.len(),
            kept@ == powerups_off(ps@.take(i as int), x, y),
            forall|k: int|
                0 <= k < kept@.len() ==> exists|j: int| 0 <= j < i && ps@[j] == #[trigger] kept@[k],
            out.records@ == r1 + powerups_off_records(ps@.take(i as int), x, y),
            r1 == old(out).records@,
            out.ended == old(out).ended,
        decreases ps@.len() - i,
    {
        let p = ps[i];
        let ghost kb = kept@;
        let ghost rb = out.records@;
        proof {
            assert(ps@.take(i + 1).drop_last() =~= ps@.take(i as int));
            assert(ps@.take(i + 1).last() == p);
        }
        if !(p.x == x && p.y == y) {
            kept.push(p);
            proof {
                assert forall|k: int| 0 <= k < kept@.len() implies exists|j: int|
                    0 <= j < i + 1 && ps@[j] == #[trigger] kept@[k] by {
                    if k < kb.len() {
                        assert(kept@[k] == kb[k]);
                    } else {
                        assert(ps@[i as int] == kept@[k]);
                    }
                }
                assert(out.records@ =~= r1 + powerups_off_records(ps@.take(i + 1), x, y));
            }
        } else {
            out.records.push(DeltaRecord::PowerupRemove { id: p.id, taken_by: NO_PLAYER });
            proof {
                assert(out.records@ =~= r1 + powerups_off_records(ps@.take(i + 1), x, y));
            }
        }
        i = i + 1;
    }
    proof {
        assert(ps@.take(i as int) =~= ps@);
    }
    kept
}

impl GameState {
    /// Phase F: once sudden death has begun, one more cell of the spiral
    /// turns solid every period, destroying what is on it.
    #[verifier::spinoff_prover]
    #[verifier::rlimit(40)]
    fn advance_sudden_death(&mut self, out: &mut TickOutcome)
        requires
            old(self)@.wf(),
        ensures
            final(self)@ == spec_sudden_death(old(self)@),
            final(self)@.wf(),
            evolves(old(self)@, final(self)@),
            final(out).records@ == old(out).records@ + sudden_death_records(old(self)@),
            final(out).ended == old(out).ended,
    {
        let ghost start = self@;
        if self.tick < self.rules.sudden_death_tick {
            return;
        }
        let elapsed = self.tick - self.rules.sudden_death_tick;
        if elapsed % SUDDEN_DEATH_PERIOD != 0 {
            return;
        }
        if self.sudden_death_filled >= self.sudden_death_order.len() {
            return;
        }
        let (x, y) = self.sudden_death_order[self.sudden_death_filled];
        assert(on_board(
            self@.sudden_death_order[self@.sudden_death_filled].0,
            self@.sudden_death_order[self@.sudden_death_filled].1,
            self@.grid.width,
            self@.grid.height,
        ));
        self.sudden_death_filled = self.sudden_death_filled + 1;
        self.grid.set(x, y, Tile::Solid);
        out.records.push(DeltaRecord::TileSet { x, y, tile: Tile::Solid });
        let mut bombs: Vec<Bomb> = Vec::new();
        let mut found: Option<Bomb> = None;
        let ghost mut origin: Seq<int> = Seq::empty();
        let mut i: usize = 0;
        while i < self.bombs.len()
            invariant
                i <= start.bombs.len(),
                self.bombs@ == start.bombs,
                bombs@ == bombs_off(start.bombs.take(i as int), x, y),
                found == bomb_on(start.bombs.take(i as int), x, y),
                origin.len() == bombs@.len(),
                forall|k: int|
                    0 <= k < origin.len() ==> 0 <= #[trigger] origin[k] < i && bombs@[k]
                        == start.bombs[origin[k]],
                forall|k: int, m: int|
                    0 <= k < m < origin.len() ==> #[trigger] origin[k] < #[trigger] origin[m],
            decreases start.bombs.len() - i,
        {
            let b = self.bombs[i];
            proof {
                assert(start.bombs.take(i + 1).drop_last() =~= start.bombs.take(i as int));
            }
            if !(b.x == x && b.y == y) {
                bombs.push(b);
                proof {
                    origin = origin.push(i as int);
                }
            } else if found.is_none() {
                found = Some(b);
            }
            proof {
                let t = start.bombs.take(i + 1);
                assert(t.drop_last() =~= start.bombs.take(i as int));
                assert(t.last() == b);
                lemma_bomb_index_at(start.bombs.take(i as int), x, y);
                match bomb_index_at(start.bombs.take(i as int), x, y) {
                    Some(j) => {
                        assert(t[j] == start.bombs.take(i as int)[j]);
                    },
                    None => {},
                }
            }
            i = i + 1;
        }
        assert(start.bombs.take(i as int) =~= start.bombs);
        self.bombs = bombs;
        match found {
            Some(b) => {
                out.records.push(DeltaRecord::BombRemove { id: b.id });
            },
            None => {},
        }
        let powerups = powerups_cleared(&self.powerups, x, y, out);
        self.powerups = powerups;
        let ghost w = self@;
        proof {
            assert(w =~= walled(start));
            assert forall|k: int| 0 <= k < w.bombs.len() implies on_board(
                (#[trigger] w.bombs[k]).x,
                w.bombs[k].y,
                w.grid.width,
                w.grid.height,
            ) by {
                assert(w.bombs[k] == start.bombs[origin[k]]);
            }
            assert forall|k: int, m: int| 0 <= k < m < w.bombs.len() implies !((#[trigger] w.bombs[k]).x
                == (#[trigger] w.bombs[m]).x && w.bombs[k].y == w.bombs[m].y) by {
                assert(origin[k] < origin[m]);
                assert(w.bombs[k] == start.bombs[origin[k]]);
                assert(w.bombs[m] == start.bombs[origin[m]]);
            }
            assert forall|k: int| 0 <= k < w.powerups.len() implies on_board(
                (#[trigger] w.powerups[k]).x,
                w.powerups[k].y,
                w.grid.width,
                w.grid.height,
            ) by {
                let j: int = choose|j: int| 0 <= j < start.powerups.len() && start.powerups[j] == w.powerups[k];
            }
            assert(w.wf());
            assert(evolves(start, w));
        }
        let mut victim: usize = 0;
        while victim < self.players.len() && !(self.players[victim].alive
            && self.players[victim].x == x && self.players[victim].y == y)
            invariant
                self@ == w,
                victim <= w.players.len(),
                forall|j: int|
                    0 <= j < victim ==> !(#[trigger] w.players[j].alive && w.players[j].x == x
                        && w.players[j].y == y),
            decreases w.players.len() - victim,
        {
            victim = victim + 1;
        }
        proof {
            lemma_player_index_at(start.players, x, y);
        }
        if victim < self.players.len() {
            self.kill(victim, NO_PLAYER, out);
            proof {
                lemma_evolves_trans(start, w, self@);
            }
        }
        assert(out.records@ =~= old(out).records@ + sudden_death_records(start));
    }
}

/// The tick a player died on, with the living ranked as if they die last.
pub open spec fn died_key(p: Player) -> int {
    match p.died_at {
        Some(t) => t as int,
        None => u32::MAX as int,
    }
}

/// `a` ranks strictly ahead of `b`: the living before the dead, then
/// whoever lasted longer, then the higher score.
pub open spec fn ranks_ahead(a: Player, b: Player) -> bool {
    ||| a.alive && !b.alive
    ||| a.alive == b.alive && (died_key(a) > died_key(b) || (died_key(a) == died_key(b) && a.score
        > b.score))
}

/// How many of the first `n` players rank strictly ahead of `p`.
pub open spec fn ahead_count(ps: Seq<Player>, p: Player, n: int) -> nat
    decreases n,
{
    if n <= 0 {
        0
    } else {
        ahead_count(ps, p, n - 1) + if ranks_ahead(ps[n - 1], p) {
            1nat
        } else {
            0nat
        }
    }
}

/// Each player's result, in id order: tied players share a placement, and
/// the next distinct player skips ahead, as on a leaderboard.
pub open spec fn spec_results(ps: Seq<Player>) -> Seq<PlayerResult> {
    Seq::new(
        ps.len(),
        |i: int|
            PlayerResult {
                id: ps[i].id,
                placement: (1 + ahead_count(ps, ps[i], ps.len() as int)) as u8,
                score: ps[i].score,
            },
    )
}

/// The ids of the living among the first `n` players, in order.
pub open spec fn survivor_ids(ps: Seq<Player>, n: int) -> Seq<u8>
    decreases n,
{
    if n <= 0 {
        Seq::empty()
    } else {
        survivor_ids(ps, n - 1) + if ps[n - 1].alive {
            seq![ps[n - 1].id]
        } else {
            Seq::empty()
        }
    }
}

/// The highest score among the players with these ids, 0 for none.
pub open spec fn best_score(ps: Seq<Player>, ids: Seq<u8>) -> u16
    decreases ids.len(),
{
    if ids.len() == 0 {
        0
    } else {
        let b = best_score(ps, ids.drop_last());
        let s = ps[ids.last() as int].score;
        if s > b {
            s
        } else {
            b
        }
    }
}

/// The ids whose player has score `best`, in order.
pub open spec fn top_ids(ps: Seq<Player>, ids: Seq<u8>, best: u16) -> Seq<u8>
    decreases ids.len(),
{
    if ids.len() == 0 {
        Seq::empty()
    } else {
        top_ids(ps, ids.drop_last(), best) + if ps[ids.last() as int].score == best {
            seq![ids.last()]
        } else {
            Seq::empty()
        }
    }
}

/// The sole survivor; with several survivors, the sole highest scorer among
/// them; otherwise nobody.
pub open spec fn spec_winner(ps: Seq<Player>) -> u8 {
    let alive = survivor_ids(ps, ps.len() as int);
    if alive.len() == 1 {
        alive[0]
    } else if alive.len() == 0 {
        NO_PLAYER
    } else {
        let top = top_ids(ps, alive, best_score(ps, alive));
        if top.len() == 1 {
            top[0]
        } else {
            NO_PLAYER
        }
    }
}

pub open spec fn outcome_is(o: MatchOutcome, v: GameView, reason: EndReason) -> bool {
    &&& o.reason == reason
    &&& o.winner == spec_winner(v.players)
    &&& o.results@ == spec_results(v.players)
}

fn ranks_ahead_exec(a: &Player, b: &Player) -> (r: bool)
    ensures
        r == ranks_ahead(*a, *b),
{
    let da: u32 = match a.died_at {
        Some(t) => t,
        None => u32::MAX,
    };
    let db: u32 = match b.died_at {
        Some(t) => t,
        None => u32::MAX,
    };
    (a.alive && !b.alive) || (a.alive == b.alive && (da > db || (da == db && a.score > b.score)))
}

/// Every survivor id names a player.
proof fn lemma_survivor_ids(ps: Seq<Player>, n: int)
    requires
        0 <= n <= ps.len(),
        forall|i: int| 0 <= i < ps.len() ==> (#[trigger] ps[i]).id == i,
    ensures
        forall|k: int|
            0 <= k < survivor_ids(ps, n).len() ==> (#[trigger] survivor_ids(ps, n)[k]) < n,
    decreases n,
{
    if n > 0 {
        lemma_survivor_ids(ps, n - 1);
        let a = survivor_ids(ps, n - 1);
        assert forall|k: int| 0 <= k < survivor_ids(ps, n).len() implies (
        #[trigger] survivor_ids(ps, n)[k]) < n by {
            if k < a.len() {
                assert(survivor_ids(ps, n)[k] == a[k]);
            }
        }
    }
}

impl GameState {
    /// Rank players: survivors first, then by how long they lasted, then by
    /// score; and name the winner.
    pub fn outcome(&self, reason: EndReason) -> (o: MatchOutcome)
        requires
            self@.wf(),
        ensures
            outcome_is(o, self@, reason),
    {
        let ghost ps = self@.players;
        let n = self.players.len();
        let mut results: Vec<PlayerResult> = Vec::new();
        let mut i: usize = 0;
        while i < n
            invariant
                self@.wf(),
                ps == self@.players,
                n == ps.len(),
                i <= n,
                results@ == spec_results(ps).take(i as int),
            decreases n - i,
        {
            let mut ahead: u8 = 0;
            let mut j: usize = 0;
            while j < n
                invariant
                    ps == self@.players,
                    n == ps.len(),
                    n <= 255,
                    i < n,
                    j <= n,
                    ahead == ahead_count(ps, ps[i as int], j as int),
                    ahead <= j,
                    j > i ==> ahead < j,
                decreases n - j,
            {
                if ranks_ahead_exec(&self.players[j], &self.players[i]) {
                    ahead = ahead + 1;
                }
                j = j + 1;
            }
            let p = &self.players[i];
            results.push(PlayerResult { id: p.id, placement: ahead + 1, score: p.score });
            i = i + 1;
            assert(results@ =~= spec_results(ps).take(i as int));
        }
        assert(results@ =~= spec_results(ps));
        let mut survivors: Vec<u8> = Vec::new();
        let mut i: usize = 0;
        while i < n
            invariant
                ps == self@.players,
                n == ps.len(),
                i <= n,
                survivors@ == survivor_ids(ps, i as int),
            decreases n - i,
        {
            if self.players[i].alive {
                survivors.push(self.players[i].id);
            }
            i = i + 1;
        }
        proof {
            lemma_survivor_ids(ps, n as int);
        }
        let winner = if survivors.len() == 1 {
            survivors[0]
        } else if survivors.len() == 0 {
            NO_PLAYER
        } else {
            let mut best: u16 = 0;
            let mut k: usize = 0;
            while k < survivors.len()
                invariant
                    ps == self@.players,
                    n == ps.len(),
                    forall|m: int|
                        0 <= m < survivors@.len() ==> (#[trigger] survivors@[m]) < n,
                    k <= survivors@.len(),
                    best == best_score(ps, survivors@.take(k as int)),
                decreases survivors@.len() - k,
            {
                assert(survivors@.take(k + 1).drop_last() =~= survivors@.take(k as int));
                let sc = self.players[survivors[k] as usize].score;
                if sc > best {
                    best = sc;
                }
                k = k + 1;
            }
            assert(survivors@.take(k as int) =~= survivors@);
            let mut top: Vec<u8> = Vec::new();
            let mut k: usize = 0;
            while k < survivors.len()
                invariant
                    ps == self@.players,
                    n == ps.len(),
                    forall|m: int|
                        0 <= m < survivors@.len() ==> (#[trigger] survivors@[m]) < n,
                    k <= survivors@.len(),
                    top@ == top_ids(ps, survivors@.take(k as int), best),
                decreases survivors@.len() - k,
            {
                assert(survivors@.take(k + 1).drop_last() =~= survivors@.take(k as int));
                if self.players[survivors[k] as usize].score == best {
                    top.push(survivors[k]);
                }
                k = k + 1;
            }
            assert(survivors@.take(k as int) =~= survivors@);
            if top.len() == 1 {
                top[0]
            } else {
                NO_PLAYER
            }
        };
        MatchOutcome { reason, winner, results }
    }
}

/// Players needed alive for the match to go on: two, or one in a solo match.
pub open spec fn survivors_needed(v: GameView) -> nat {
    if v.players.len() > 1 {
        2
    } else {
        1
    }
}

/// The match is over: too few left alive, or the round timer ran out.
pub open spec fn match_over(v: GameView) -> bool {
    alive_count(v.players) < survivors_needed(v) || v.tick >= v.rules.round_time_ticks
}

pub open spec fn end_reason(v: GameView) -> EndReason {
    if alive_count(v.players) < survivors_needed(v) {
        EndReason::LastStanding
    } else {
        EndReason::Timeout
    }
}

/// Survivors awarded the win bonus, and the match marked finished.
pub open spec fn crown(v: GameView) -> GameView {
    GameView {
        players: v.players.map_values(
            |p: Player|
                if p.alive {
                    Player { score: p.score.saturating_add(SCORE_WIN), ..p }
                } else {
                    p
                },
        ),
        finished: true,
        ..v
    }
}

impl GameState {
    /// Phase G: is it over? A normal match ends when one player is left; a
    /// solo match runs until its player dies; any match ends on the timer.
    fn check_end(&mut self, out: &mut TickOutcome)
        requires
            old(self)@.wf(),
        ensures
            final(self)@ == if match_over(old(self)@) {
                crown(old(self)@)
            } else {
                old(self)@
            },
            final(self)@.wf(),
            evolves(old(self)@, final(self)@),
            final(out).records@ == old(out).records@ + if match_over(old(self)@) {
                crown(old(self)@).players.map_values(|p: Player| spec_stats_record(p))
            } else {
                Seq::empty()
            },
            match_over(old(self)@) ==> (final(out).ended matches Some(o) && outcome_is(
                o,
                crown(old(self)@),
                end_reason(old(self)@),
            )),
            !match_over(old(self)@) ==> final(out).ended == old(out).ended,
    {
        let ghost start = self@;
        let alive = self.alive_count();
        let timeout = self.tick >= self.rules.round_time_ticks;
        let survivors_needed: usize = if self.players.len() > 1 {
            2
        } else {
            1
        };
        if alive >= survivors_needed && !timeout {
            return;
        }
        let reason = if alive < survivors_needed {
            EndReason::LastStanding
        } else {
            EndReason::Timeout
        };
        let n = self.players.len();
        let mut i: usize = 0;
        while i < n
            invariant
                i <= n,
                n == start.players.len(),
                self@ == (GameView { players: self@.players, ..start }),
                self@.players.len() == n,
                forall|k: int|
                    0 <= k < n ==> #[trigger] self@.players[k] == if k < i {
                        crown(start).players[k]
                    } else {
                        start.players[k]
                    },
            decreases n - i,
        {
            let mut p = self.players[i];
            if p.alive {
                p.score = p.score.saturating_add(SCORE_WIN);
                self.players.set(i, p);
            }
            i = i + 1;
        }
        self.finished = true;
        assert(self@ =~= crown(start));
        let ghost r0 = out.records@;
        let mut i: usize = 0;
        while i < n
            invariant
                i <= n,
                n == self@.players.len(),
                out.records@ == r0 + self@.players.take(i as int).map_values(
                    |p: Player| spec_stats_record(p),
                ),
            decreases n - i,
        {
            let rec = self.players[i].stats_record();
            out.records.push(rec);
            i = i + 1;
            assert(out.records@ =~= r0 + self@.players.take(i as int).map_values(
                |p: Player| spec_stats_record(p),
            ));
        }
        assert(self@.players.take(i as int) =~= self@.players);
        proof {
            let v = self@;
            assert forall|k: int, m: int|
                0 <= k < m < v.players.len() && (#[trigger] v.players[k]).alive
                    && (#[trigger] v.players[m]).alive implies !(v.players[k].x == v.players[m].x
                && v.players[k].y == v.players[m].y) by {
                assert(start.players[k].alive && start.players[m].alive);
            }
            assert(v.wf());
        }
        out.ended = Some(self.outcome(reason));
    }
}

/// Index of the first power-up on `(x, y)`, if any.
pub open spec fn powerup_index_at(us: Seq<Powerup>, x: u8, y: u8) -> Option<int>
    decreases us.len(),
{
    if us.len() == 0 {
        None
    } else {
        match powerup_index_at(us.drop_last(), x, y) {
            Some(i) => Some(i),
            None => if us.last().x == x && us.last().y == y {
                Some(us.len() - 1)
            } else {
                None
            },
        }
    }
}

pub proof fn lemma_powerup_index_at(us: Seq<Powerup>, x: u8, y: u8)
    ensures
        match powerup_index_at(us, x, y) {
            Some(i) => 0 <= i < us.len() && us[i].x == x && us[i].y == y && forall|j: int|
                0 <= j < i ==> !(#[trigger] us[j].x == x && us[j].y == y),
            None => forall|j: int| 0 <= j < us.len() ==> !(#[trigger] us[j].x == x && us[j].y == y),
        },
    decreases us.len(),
{
    if us.len() > 0 {
        lemma_powerup_index_at(us.drop_last(), x, y);
        assert forall|j: int| 0 <= j < us.len() - 1 implies #[trigger] us[j] == us.drop_last()[j] by {}
    }
}

/// The power-up player `i` picks up this tick: the first on their cell, if
/// they are alive.
pub open spec fn claim(v: GameView, i: int) -> Option<int> {
    if v.players[i].alive {
        powerup_index_at(v.powerups, v.players[i].x, v.players[i].y)
    } else {
        None
    }
}

/// One more, up to the cap.
pub open spec fn capped_inc(v: u8, cap: u8) -> u8 {
    if v < cap {
        (v + 1) as u8
    } else {
        cap
    }
}

/// What picking up a power-up of `kind` grants.
pub open spec fn boosted(p: Player, kind: PowerupKind, rules: Rules) -> Player {
    match kind {
        PowerupKind::ExtraBomb => Player { bombs_max: p.bombs_max.saturating_add(1), ..p },
        PowerupKind::Flame => Player { flame: capped_inc(p.flame, rules.max_flame), ..p },
        PowerupKind::Speed => Player { speed: capped_inc(p.speed, rules.max_speed), ..p },
    }
}

/// Some player picks up power-up `u` this tick.
pub open spec fn claimed(v: GameView, u: int) -> bool {
    exists|i: int| 0 <= i < v.players.len() && #[trigger] claim(v, i) == Some(u)
}

/// The items whose index is not in `gone`, in order.
pub open spec fn without(us: Seq<Powerup>, gone: Set<int>) -> Seq<Powerup>
    decreases us.len(),
{
    if us.len() == 0 {
        Seq::empty()
    } else {
        without(us.drop_last(), gone) + if gone.contains(us.len() - 1) {
            Seq::empty()
        } else {
            seq![us.last()]
        }
    }
}

/// Phase D's effect: each living player standing on a power-up takes the
/// first one there.
pub open spec fn spec_collect(v: GameView) -> GameView {
    GameView {
        players: Seq::new(
            v.players.len(),
            |i: int|
                match claim(v, i) {
                    Some(u) => boosted(v.players[i], v.powerups[u].kind, v.rules),
                    None => v.players[i],
                },
        ),
        powerups: without(v.powerups, Set::new(|u: int| claimed(v, u))),
        ..v
    }
}

/// The player who picks up power-up `u` this tick.
pub open spec fn claimer(v: GameView, u: int) -> int {
    choose|q: int| 0 <= q < v.players.len() && #[trigger] claim(v, q) == Some(u)
}

/// What phase D reports for the power-ups with index in `lo..hi`, highest
/// index first: for each one picked up, its removal and its taker's new
/// stats.
pub open spec fn pickup_records(v: GameView, lo: int, hi: int) -> Seq<DeltaRecord>
    decreases hi - lo,
{
    if hi <= lo {
        Seq::empty()
    } else {
        let u = hi - 1;
        (if claimed(v, u) {
            seq![
                DeltaRecord::PowerupRemove { id: v.powerups[u].id, taken_by: v.players[claimer(v, u)].id },
                spec_stats_record(spec_collect(v).players[claimer(v, u)]),
            ]
        } else {
            Seq::empty()
        }) + pickup_records(v, lo, u)
    }
}

/// No power-up in `lo..hi` is picked up, so nothing is reported for them.
proof fn lemma_pickup_none(v: GameView, lo: int, hi: int)
    requires
        forall|u: int| lo <= u < hi ==> !#[trigger] claimed(v, u),
    ensures
        pickup_records(v, lo, hi) == Seq::<DeltaRecord>::empty(),
    decreases hi - lo,
{
    if hi > lo {
        assert(!claimed(v, hi - 1));
        lemma_pickup_none(v, lo, hi - 1);
    }
}

/// The reports for `lo..hi` are those for `mid..hi` then those for `lo..mid`.
#[verifier::spinoff_prover]
proof fn lemma_pickup_split(v: GameView, lo: int, mid: int, hi: int)
    requires
        lo <= mid <= hi,
    ensures
        pickup_records(v, lo, hi) == pickup_records(v, mid, hi) + pickup_records(v, lo, mid),
    decreases hi - mid,
{
    if hi > mid {
        lemma_pickup_split(v, lo, mid, hi - 1);
        let h = if claimed(v, hi - 1) {
            seq![
                DeltaRecord::PowerupRemove { id: v.powerups[hi - 1].id, taken_by: v.players[claimer(v, hi - 1)].id },
                spec_stats_record(spec_collect(v).players[claimer(v, hi - 1)]),
            ]
        } else {
            Seq::<DeltaRecord>::empty()
        };
        assert(h + (pickup_records(v, mid, hi - 1) + pickup_records(v, lo, mid)) =~= (h
            + pickup_records(v, mid, hi - 1)) + pickup_records(v, lo, mid));
    } else {
        assert(pickup_records(v, mid, hi) =~= Seq::<DeltaRecord>::empty());
        assert(pickup_records(v, lo, hi) =~= Seq::<DeltaRecord>::empty() + pickup_records(
            v,
            lo,
            mid,
        ));
    }
}

/// Only one living player stands on a power-up's cell, so at most one claims it.
proof fn lemma_claim_unique(v: GameView, q: int, r: int)
    requires
        v.wf(),
        0 <= q < v.players.len(),
        0 <= r < v.players.len(),
        claim(v, q) is Some,
        claim(v, q) == claim(v, r),
    ensures
        q == r,
{
    lemma_powerup_index_at(v.powerups, v.players[q].x, v.players[q].y);
    lemma_powerup_index_at(v.powerups, v.players[r].x, v.players[r].y);
    if q < r {
        assert(!(v.players[q].x == v.players[r].x && v.players[q].y == v.players[r].y));
    } else if r < q {
        assert(!(v.players[r].x == v.players[q].x && v.players[r].y == v.players[q].y));
    }
}

/// What is kept is among the items.
proof fn lemma_without_items(us: Seq<Powerup>, gone: Set<int>)
    ensures
        forall|k: int|
            0 <= k < without(us, gone).len() ==> exists|j: int|
                0 <= j < us.len() && us[j] == #[trigger] without(us, gone)[k],
    decreases us.len(),
{
    if us.len() > 0 {
        let rest = us.drop_last();
        lemma_without_items(rest, gone);
        let a = without(rest, gone);
        assert forall|k: int| 0 <= k < without(us, gone).len() implies exists|j: int|
            0 <= j < us.len() && us[j] == #[trigger] without(us, gone)[k] by {
            if k < a.len() {
                let j: int = choose|j: int| 0 <= j < rest.len() && rest[j] == #[trigger] a[k];
                assert(us[j] == rest[j]);
                assert(without(us, gone)[k] == a[k]);
            } else {
                assert(without(us, gone)[k] == us[us.len() - 1]);
            }
        }
    }
}

/// Nothing is dropped when every gone index is past the end.
proof fn lemma_without_none(us: Seq<Powerup>, gone: Set<int>)
    requires
        forall|r: int| #[trigger] gone.contains(r) ==> r >= us.len(),
    ensures
        without(us, gone) == us,
    decreases us.len(),
{
    if us.len() > 0 {
        lemma_without_none(us.drop_last(), gone);
        assert(us.drop_last().push(us.last()) =~= us);
    }
}

/// Dropping one more index, below every index already dropped, is a
/// `remove` at that same position.
proof fn lemma_without_remove(us: Seq<Powerup>, gone: Set<int>, u: int)
    requires
        0 <= u < us.len(),
        forall|r: int| #[trigger] gone.contains(r) ==> r > u,
    ensures
        u < without(us, gone).len(),
        without(us, gone)[u] == us[u],
        without(us, gone).remove(u) == without(us, gone.insert(u)),
    decreases us.len(),
{
    let n = us.len();
    let rest = us.drop_last();
    if u == n - 1 {
        lemma_without_none(us, gone);
        lemma_without_none(rest, gone.insert(u));
        assert(without(us, gone.insert(u)) == without(rest, gone.insert(u)));
        assert(us.remove(u) =~= rest);
    } else {
        lemma_without_remove(rest, gone, u);
        let a = without(rest, gone);
        let t = if gone.contains(n - 1) {
            Seq::<Powerup>::empty()
        } else {
            seq![us.last()]
        };
        assert(without(us, gone) == a + t);
        assert(rest[u] == us[u]);
        assert((a + t).remove(u) =~= a.remove(u) + t);
        assert(gone.insert(u).contains(n - 1) == gone.contains(n - 1));
    }
}

impl GameState {
    /// Phase D: living players pick up the power-up they stand on.
    fn collect_powerups(&mut self, out: &mut TickOutcome)
        requires
            old(self)@.wf(),
        ensures
            final(self)@ == spec_collect(old(self)@),
            final(self)@.wf(),
            evolves(old(self)@, final(self)@),
            final(out).ended == old(out).ended,
            final(out).records@ == old(out).records@ + pickup_records(
                old(self)@,
                0,
                old(self)@.powerups.len() as int,
            ),
    {
        let ghost start = self@;
        let n = self.players.len();
        let mut taken: Vec<(usize, usize)> = Vec::new();
        let mut pi: usize = 0;
        while pi < n
            invariant
                self@ == start,
                start.wf(),
                n == start.players.len(),
                pi <= n,
                forall|a: int, b: int|
                    0 <= a < b < taken@.len() ==> (#[trigger] taken@[a]).1 > (#[trigger] taken@[b]).1,
                forall|k: int|
                    0 <= k < taken@.len() ==> (#[trigger] taken@[k]).0 < pi && claim(
                        start,
                        taken@[k].0 as int,
                    ) == Some(taken@[k].1 as int),
                forall|q: int|
                    0 <= q < pi && #[trigger] claim(start, q) is Some ==> exists|k: int|
                        0 <= k < taken@.len() && (#[trigger] taken@[k]).0 == q,
            decreases n - pi,
        {
            let p = self.players[pi];
            proof {
                lemma_powerup_index_at(start.powerups, p.x, p.y);
            }
            if p.alive {
                let mut ui: usize = 0;
                while ui < self.powerups.len() && !(self.powerups[ui].x == p.x
                    && self.powerups[ui].y == p.y)
                    invariant
                        self@ == start,
                        ui <= start.powerups.len(),
                        forall|j: int|
                            0 <= j < ui ==> !(#[trigger] start.powerups[j].x == p.x
                                && start.powerups[j].y == p.y),
                    decreases start.powerups.len() - ui,
                {
                    ui = ui + 1;
                }
                if ui < self.powerups.len() {
                    assert(claim(start, pi as int) == Some(ui as int));
                    let mut at: usize = 0;
                    while at < taken.len() && taken[at].1 > ui
                        invariant
                            at <= taken@.len(),
                            forall|k: int| 0 <= k < at ==> (#[trigger] taken@[k]).1 > ui,
                        decreases taken@.len() - at,
                    {
                        at = at + 1;
                    }
                    proof {
                        if at < taken@.len() {
                            let q = taken@[at as int].0 as int;
                            assert(claim(start, q) == Some(taken@[at as int].1 as int));
                            if taken@[at as int].1 == ui {
                                lemma_powerup_index_at(
                                    start.powerups,
                                    start.players[q].x,
                                    start.players[q].y,
                                );
                                assert(start.players[q].alive && start.players[pi as int].alive);
                                assert(!(start.players[q].x == start.players[pi as int].x
                                    && start.players[q].y == start.players[pi as int].y));
                                assert(false);
                            }
                        }
                    }
                    let ghost tb = taken@;
                    taken.insert(at, (pi, ui));
                    proof {
                        assert forall|a: int, b: int|
                            0 <= a < b < taken@.len() implies (#[trigger] taken@[a]).1 > (
                            #[trigger] taken@[b]).1 by {
                            if b < at {
                                assert(taken@[a] == tb[a]);
                                assert(taken@[b] == tb[b]);
                            } else if a < at && b == at {
                                assert(taken@[a] == tb[a]);
                            } else if a < at {
                                assert(taken@[a] == tb[a]);
                                assert(taken@[b] == tb[b - 1]);
                            } else if a == at {
                                assert(taken@[b] == tb[b - 1]);
                                if b - 1 > at {
                                    assert(tb[at as int].1 > tb[b - 1].1);
                                }
                            } else {
                                assert(taken@[a] == tb[a - 1]);
                                assert(taken@[b] == tb[b - 1]);
                            }
                        }
                        assert forall|k: int| 0 <= k < taken@.len() implies (#[trigger] taken@[k]).0
                            < pi + 1 && claim(start, taken@[k].0 as int) == Some(
                            taken@[k].1 as int,
                        ) by {
                            if k < at {
                                assert(taken@[k] == tb[k]);
                            } else if k > at {
                                assert(taken@[k] == tb[k - 1]);
                            }
                        }
                        assert forall|q: int|
                            0 <= q < pi + 1 && #[trigger] claim(start, q) is Some implies exists|k: int|
                                0 <= k < taken@.len() && (#[trigger] taken@[k]).0 == q by {
                            if q == pi {
                                assert(taken@[at as int].0 == q);
                            } else {
                                let k: int = choose|k: int| 0 <= k < tb.len() && (#[trigger] tb[k]).0 == q;
                                if k < at {
                                    assert(taken@[k] == tb[k]);
                                } else {
                                    assert(taken@[k + 1] == tb[k]);
                                }
                            }
                        }
                    }
                } else {
                    assert(claim(start, pi as int) is None);
                }
            }
            pi = pi + 1;
        }
        let ghost all_taken = taken@;
        let ghost mut removed: Set<int> = Set::empty();
        proof {
            lemma_without_none(start.powerups, removed);
            assert(removed =~= Set::new(
                |u: int| exists|j: int| 0 <= j < 0 && (#[trigger] all_taken[j]).1 == u,
            ));
        }
        let ghost total = start.powerups.len() as int;
        proof {
            assert forall|u: int| #[trigger] claimed(start, u) implies exists|j: int|
                0 <= j < all_taken.len() && all_taken[j].1 == u by {
                let q: int = choose|q: int| 0 <= q < start.players.len() && #[trigger] claim(start, q) == Some(u);
                let j: int = choose|j: int| 0 <= j < all_taken.len() && (#[trigger] all_taken[j]).0 == q;
                assert(all_taken[j].1 == u);
            }
            assert forall|j: int| 0 <= j < all_taken.len() implies (#[trigger] all_taken[j]).1 < total by {
                let q = all_taken[j].0 as int;
                lemma_powerup_index_at(start.powerups, start.players[q].x, start.players[q].y);
            }
        }
        let mut k: usize = 0;
        while k < taken.len()
            invariant
                start.wf(),
                n == start.players.len(),
                taken@ == all_taken,
                total == start.powerups.len(),
                forall|u: int| #[trigger] claimed(start, u) ==> exists|j: int|
                    0 <= j < taken@.len() && taken@[j].1 == u,
                forall|j: int| 0 <= j < taken@.len() ==> (#[trigger] taken@[j]).1 < total,
                out.records@ == old(out).records@ + pickup_records(
                    start,
                    if k == 0 {
                        total
                    } else {
                        taken@[k - 1].1 as int
                    },
                    total,
                ),
                k <= taken@.len(),
                forall|a: int, b: int|
                    0 <= a < b < taken@.len() ==> (#[trigger] taken@[a]).1 > (#[trigger] taken@[b]).1,
                forall|j: int|
                    0 <= j < taken@.len() ==> (#[trigger] taken@[j]).0 < n && claim(
                        start,
                        taken@[j].0 as int,
                    ) == Some(taken@[j].1 as int),
                removed == Set::new(|u: int| exists|j: int| 0 <= j < k && (#[trigger] taken@[j]).1 == u),
                self@ == (GameView { players: self@.players, powerups: self@.powerups, ..start }),
                self@.powerups == without(start.powerups, removed),
                self@.players.len() == n,
                forall|q: int|
                    0 <= q < n ==> #[trigger] self@.players[q] == if exists|j: int|
                        0 <= j < k && (#[trigger] taken@[j]).0 == q {
                        boosted(
                            start.players[q],
                            start.powerups[claim(start, q)->0].kind,
                            start.rules,
                        )
                    } else {
                        start.players[q]
                    },
                out.ended == old(out).ended,
            decreases taken@.len() - k,
        {
            let (pi, ui) = taken[k];
            proof {
                lemma_powerup_index_at(
                    start.powerups,
                    start.players[pi as int].x,
                    start.players[pi as int].y,
                );
                assert forall|r: int| #[trigger] removed.contains(r) implies r > ui by {
                    let j: int = choose|j: int| 0 <= j < k && (#[trigger] taken@[j]).1 == r;
                    assert(taken@[j].1 > taken@[k as int].1);
                }
                lemma_without_remove(start.powerups, removed, ui as int);
            }
            let powerup = self.powerups.remove(ui);
            let rules = self.rules;
            let mut player = self.players[pi];
            match powerup.kind {
                PowerupKind::ExtraBomb => {
                    player.bombs_max = player.bombs_max.saturating_add(1);
                },
                PowerupKind::Flame => {
                    player.flame = if player.flame < rules.max_flame {
                        player.flame + 1
                    } else {
                        rules.max_flame
                    };
                },
                PowerupKind::Speed => {
                    player.speed = if player.speed < rules.max_speed {
                        player.speed + 1
                    } else {
                        rules.max_speed
                    };
                },
            }
            let ghost before = self@.players;
            let ghost recs = out.records@;
            self.players.set(pi, player);
            out.records.push(DeltaRecord::PowerupRemove { id: powerup.id, taken_by: player.id });
            out.records.push(player.stats_record());
            proof {
                let lo = if k == 0 {
                    total
                } else {
                    taken@[k - 1].1 as int
                };
                assert(claim(start, pi as int) == Some(ui as int));
                assert(claimed(start, ui as int));
                lemma_claim_unique(start, pi as int, claimer(start, ui as int));
                assert(powerup == start.powerups[ui as int]);
                if k > 0 {
                    assert(taken@[k - 1].1 > taken@[k as int].1);
                }
                assert forall|u: int| ui + 1 <= u < lo implies !#[trigger] claimed(start, u) by {
                    if claimed(start, u) {
                        let j: int = choose|j: int| 0 <= j < taken@.len() && taken@[j].1 == u;
                        if j < k {
                            if j < k - 1 {
                                assert(taken@[j].1 > taken@[k - 1].1);
                            }
                        } else if j > k {
                            assert(taken@[k as int].1 > taken@[j].1);
                        }
                    }
                }
                lemma_pickup_none(start, ui + 1, lo);
                lemma_pickup_split(start, ui as int, lo, total);
                lemma_pickup_split(start, ui as int, ui + 1, lo);
                assert(pickup_records(start, ui as int, ui as int) =~= Seq::<DeltaRecord>::empty());
                assert(spec_collect(start).players[pi as int] == boosted(
                    start.players[pi as int],
                    start.powerups[ui as int].kind,
                    start.rules,
                ));
            }
            proof {
                assert forall|q: int| 0 <= q < n implies #[trigger] self@.players[q] == if exists|j: int|
                    0 <= j < k + 1 && (#[trigger] taken@[j]).0 == q {
                    boosted(start.players[q], start.powerups[claim(start, q)->0].kind, start.rules)
                } else {
                    start.players[q]
                } by {
                    if q == pi {
                        assert(taken@[k as int].0 == q);
                        if exists|j: int| 0 <= j < k && (#[trigger] taken@[j]).0 == q {
                            let j: int = choose|j: int| 0 <= j < k && (#[trigger] taken@[j]).0 == q;
                            assert(taken@[j].1 > taken@[k as int].1);
                        }
                    } else {
                        assert(before[q] == self@.players[q]);
                        if exists|j: int| 0 <= j < k + 1 && (#[trigger] taken@[j]).0 == q {
                            let j: int = choose|j: int| 0 <= j < k + 1 && (#[trigger] taken@[j]).0 == q;
                            assert(j < k);
                        }
                    }
                }
                removed = removed.insert(ui as int);
                assert(removed =~= Set::new(
                    |u: int| exists|j: int| 0 <= j < k + 1 && (#[trigger] taken@[j]).1 == u,
                )) by {
                    assert forall|u: int| #[trigger] removed.contains(u) == (exists|j: int|
                        0 <= j < k + 1 && (#[trigger] taken@[j]).1 == u) by {
                        if u == ui {
                            assert(taken@[k as int].1 == u);
                        }
                        if exists|j: int| 0 <= j < k + 1 && (#[trigger] taken@[j]).1 == u {
                            let j: int = choose|j: int| 0 <= j < k + 1 && (#[trigger] taken@[j]).1 == u;
                            if j < k {
                                assert(exists|j2: int| 0 <= j2 < k && (#[trigger] taken@[j2]).1 == u);
                            }
                        }
                    }
                }
            }
            k = k + 1;
        }
        proof {
            let v = self@;
            let target = spec_collect(start);
            assert(removed =~= Set::new(|u: int| claimed(start, u))) by {
                assert forall|u: int| #[trigger] removed.contains(u) == claimed(start, u) by {
                    if removed.contains(u) {
                        let j: int = choose|j: int| 0 <= j < k && (#[trigger] taken@[j]).1 == u;
                        assert(claim(start, taken@[j].0 as int) == Some(u));
                    }
                    if claimed(start, u) {
                        let q: int = choose|q: int| 0 <= q < start.players.len() && #[trigger] claim(start, q) == Some(u);
                        let j: int = choose|j: int| 0 <= j < all_taken.len() && (#[trigger] all_taken[j]).0 == q;
                        assert(taken@[j].1 == u);
                    }
                }
            }
            assert forall|q: int| 0 <= q < n implies #[trigger] v.players[q] == target.players[q] by {
                if claim(start, q) is Some {
                    let j: int = choose|j: int| 0 <= j < all_taken.len() && (#[trigger] all_taken[j]).0 == q;
                    assert(taken@[j].0 == q);
                } else {
                    if exists|j: int| 0 <= j < k && (#[trigger] taken@[j]).0 == q {
                        let j: int = choose|j: int| 0 <= j < k && (#[trigger] taken@[j]).0 == q;
                        assert(claim(start, q) == Some(taken@[j].1 as int));
                    }
                }
            }
            assert(v.players =~= target.players);
            assert(v =~= target);
            lemma_without_items(start.powerups, removed);
            assert forall|k2: int| 0 <= k2 < v.powerups.len() implies on_board(
                (#[trigger] v.powerups[k2]).x,
                v.powerups[k2].y,
                v.grid.width,
                v.grid.height,
            ) by {
                let j: int = choose|j: int| 0 <= j < start.powerups.len() && start.powerups[j] == v.powerups[k2];
            }
            assert forall|a: int, b: int|
                0 <= a < b < v.players.len() && (#[trigger] v.players[a]).alive
                    && (#[trigger] v.players[b]).alive implies !(v.players[a].x == v.players[b].x
                && v.players[a].y == v.players[b].y) by {
                assert(start.players[a].alive && start.players[b].alive);
            }
            assert(v.wf());
            assert(evolves(start, v));
            let lo = if k == 0 {
                total
            } else {
                taken@[k - 1].1 as int
            };
            assert forall|u: int| 0 <= u < lo implies !#[trigger] claimed(start, u) by {
                if claimed(start, u) {
                    let j: int = choose|j: int| 0 <= j < taken@.len() && taken@[j].1 == u;
                    if j < k - 1 {
                        assert(taken@[j].1 > taken@[k - 1].1);
                    }
                }
            }
            lemma_pickup_none(start, 0, lo);
            lemma_pickup_split(start, 0, lo, total);
            assert(pickup_records(start, lo, total) + Seq::<DeltaRecord>::empty() =~= pickup_records(
                start,
                lo,
                total,
            ));
        }
    }
}

/// The state a tick starts from: the clock advanced and every flame a tick
/// shorter.
pub open spec fn aged(v: GameView) -> GameView {
    GameView { tick: (v.tick + 1) as u32, flames: v.flames.map_values(|f: u8| age(f)), ..v }
}

/// What the detonation phase guarantees of the state `b` it leaves behind
/// `a`: fuses one tick shorter; the bombs going off one after another, each
/// setting alight its whole blast on the board as the ones before left it;
/// the bombs whose fuse ran out gone along with
/// every bomb caught in a blast; each bomb that went off either out of fuse
/// or reached by the blast of one that went off before it; every cell that a
/// gone bomb's blast reaches on the board it started from lit, and no cell
/// lit that no gone bomb's blast reaches on the board it leaves; exactly the
/// soft blocks on lit cells destroyed; exactly the lit cells set burning;
/// no new power-up but on such a cell;
/// players unchanged but for score and
/// bombs in play; every lit cell burning; and `blast`, the records the phase
/// writes, reporting each bomb that went off and each block destroyed, with
/// nothing in it but the kinds of record a blast writes.
pub open spec fn detonated(a: GameView, b: GameView, blast: Seq<DeltaRecord>) -> bool {
    &&& b.wf()
    &&& evolves(a, b)
    &&& b.tick == a.tick
    &&& b.finished == a.finished
    &&& exists|gone: Seq<u16>, lit: Set<(u8, u8)>|
        {
            &&& b.bombs == keep_bombs(tick_fuses(a.bombs), gone)
            &&& forall|j: int|
                0 <= j < a.bombs.len() && (#[trigger] tick_fuses(a.bombs)[j]).fuse == 0
                    ==> gone.contains(tick_fuses(a.bombs)[j].id)
            &&& forall|j: int|
                0 <= j < b.bombs.len() ==> !lit.contains(((#[trigger] b.bombs[j]).x, b.bombs[j].y))
                    && b.bombs[j].fuse > 0
            &&& forall|id: u16|
                #[trigger] gone.contains(id) ==> exists|j: int|
                    0 <= j < a.bombs.len() && tick_fuses(a.bombs)[j].id == id && lit.contains(
                        (tick_fuses(a.bombs)[j].x, tick_fuses(a.bombs)[j].y),
                    )
            &&& forall|id: u16|
                #[trigger] gone.contains(id) ==> exists|j: int|
                    0 <= j < a.bombs.len() && tick_fuses(a.bombs)[j].id == id && forall|i: int, t: int|
                        #[trigger] reaches(a.grid, tick_fuses(a.bombs)[j], i, t) ==> lit.contains(
                            ray_cell(tick_fuses(a.bombs)[j], i, t),
                        )
            &&& forall|c: (u8, u8)|
                #[trigger] lit.contains(c) ==> exists|j: int|
                    0 <= j < a.bombs.len() && gone.contains(tick_fuses(a.bombs)[j].id) && in_reach(
                        b.grid,
                        tick_fuses(a.bombs)[j],
                        c.0 as int,
                        c.1 as int,
                    )
            &&& forall|p: int| 0 <= p < gone.len() ==> #[trigger] set_off(tick_fuses(a.bombs), gone, p, b.grid)
            &&& burned(a.grid, b.grid, lit)
            &&& drops_from_burns(a, b, lit)
            &&& blast_frame(a, b)
            &&& exists|order: Seq<int>, lits: Seq<Set<(u8, u8)>>, grids: Seq<GridView>|
                chain_ok(a.grid, tick_fuses(a.bombs), gone, lit, order, lits, grids)
            &&& flamed(a.grid, a.flames, b.flames, lit, flame_ticks(a.rules))
            &&& players_tallied(a.players, b.players)
            &&& forall|id: u16| #[trigger] gone.contains(id) ==> reports_removal(blast, 0, id)
            &&& forall|c: (u8, u8)|
                #[trigger] lit.contains(c) && a.grid.at(c.0 as int, c.1 as int) == Tile::Soft
                    ==> reports_burn(blast, 0, c)
            &&& forall|n: int| 0 <= n < blast.len() ==> blast_kind(#[trigger] blast[n])
            &&& lit_burns(b, lit)
        }
}

/// The rest of a tick after detonation, up to the end check: inputs, pickups,
/// fire, sudden death.
pub open spec fn before_end(b: GameView, inputs: Seq<Option<Action>>) -> GameView {
    let n = b.players.len() as int;
    spec_sudden_death(burn_all(spec_collect(move_all(place_all(b, inputs, n), inputs, n)), n))
}

/// The end check's effect on a state.
pub open spec fn ended_state(f: GameView) -> GameView {
    if match_over(f) {
        crown(f)
    } else {
        f
    }
}

/// The outcome a tick reports for the state `f` it checks for the end.
pub open spec fn ended_ok(ended: Option<MatchOutcome>, f: GameView) -> bool {
    if match_over(f) {
        ended matches Some(o) && outcome_is(o, crown(f), end_reason(f))
    } else {
        ended is None
    }
}

/// The clock does not enter well-formedness.
proof fn lemma_wf_tick(v: GameView, t: u32)
    requires
        v.wf(),
    ensures
        (GameView { tick: t, ..v }).wf(),
{
}

/// Placing bombs and moving leave the clock and the finished flag alone.
proof fn lemma_inputs_frame(v: GameView, inputs: Seq<Option<Action>>, n: int)
    ensures
        place_all(v, inputs, n).tick == v.tick,
        place_all(v, inputs, n).finished == v.finished,
        move_all(v, inputs, n).tick == v.tick,
        move_all(v, inputs, n).finished == v.finished,
    decreases n,
{
    if n > 0 {
        lemma_inputs_frame(v, inputs, n - 1);
    }
}

/// So do burning and pickups.
proof fn lemma_burn_frame(v: GameView, n: int)
    ensures
        burn_all(v, n).tick == v.tick,
        burn_all(v, n).finished == v.finished,
    decreases n,
{
    if n > 0 {
        lemma_burn_frame(v, n - 1);
    }
}

proof fn lemma_evolves_chain(
    s: GameView,
    a: GameView,
    b: GameView,
    c: GameView,
    d: GameView,
    e: GameView,
    f: GameView,
    g: GameView,
)
    requires
        evolves(s, a),
        evolves(a, b),
        evolves(b, c),
        evolves(c, d),
        evolves(d, e),
        evolves(e, f),
        evolves(f, g),
    ensures
        evolves(s, g),
{
    lemma_evolves_trans(s, a, b);
    lemma_evolves_trans(s, b, c);
    lemma_evolves_trans(s, c, d);
    lemma_evolves_trans(s, d, e);
    lemma_evolves_trans(s, e, f);
    lemma_evolves_trans(s, f, g);
}

/// The stats the end check reports: every player's, once the match is over.
pub open spec fn end_records(f: GameView) -> Seq<DeltaRecord> {
    if match_over(f) {
        crown(f).players.map_values(|p: Player| spec_stats_record(p))
    } else {
        Seq::empty()
    }
}

/// Everything a tick reports, phase by phase, given the state `b` detonation
/// left behind and the records of the blast phase.
pub open spec fn tick_records(
    v: GameView,
    b: GameView,
    inputs: Seq<Option<Action>>,
    blast: Seq<DeltaRecord>,
) -> Seq<DeltaRecord> {
    let n = b.players.len() as int;
    let placed = place_all(b, inputs, n);
    let moved = move_all(placed, inputs, n);
    let d = spec_collect(moved);
    let e = burn_all(d, n);
    expired_cells(v.flames, v.grid.width as int, v.grid.width * v.grid.height) + blast
        + place_all_records(b, inputs, n) + move_all_records(placed, inputs, n) + pickup_records(
        moved,
        0,
        moved.powerups.len() as int,
    ) + burn_records(d, n) + sudden_death_records(e) + end_records(spec_sudden_death(e))
}

/// The state a tick leaves behind an unfinished match: flames age, bombs
/// detonate, then inputs, pickups, fire, sudden death and the end check.
pub open spec fn step_view(v: GameView, inputs: Seq<Option<Action>>) -> GameView {
    ended_state(before_end(detonation(aged(v)).0, inputs))
}

/// Everything that tick reports.
pub open spec fn step_records(v: GameView, inputs: Seq<Option<Action>>) -> Seq<DeltaRecord> {
    tick_records(v, detonation(aged(v)).0, inputs, detonation(aged(v)).2)
}

/// The state after one tick: a finished match stays as it is.
pub open spec fn tick_view(v: GameView, inputs: Seq<Option<Action>>) -> GameView {
    if v.finished {
        v
    } else {
        step_view(v, inputs)
    }
}

/// The state after a tick for each entry of `ticks`, in order.
pub open spec fn replay(v: GameView, ticks: Seq<Seq<Option<Action>>>) -> GameView
    decreases ticks.len(),
{
    if ticks.len() == 0 {
        v
    } else {
        tick_view(replay(v, ticks.drop_last()), ticks.last())
    }
}

/// Replaying the same inputs from the same state reproduces every
/// intermediate tick, and so every state hash along the way.
pub proof fn lemma_replay_deterministic(
    v1: GameView,
    v2: GameView,
    t1: Seq<Seq<Option<Action>>>,
    t2: Seq<Seq<Option<Action>>>,
    n: int,
)
    requires
        v1 == v2,
        t1 == t2,
        0 <= n <= t1.len(),
    ensures
        replay(v1, t1.take(n)) == replay(v2, t2.take(n)),
        fnv(FNV_OFFSET, state_words(replay(v1, t1.take(n)))) == fnv(
            FNV_OFFSET,
            state_words(replay(v2, t2.take(n))),
        ),
{
}

/// The same state and the same inputs give the same next state, the same
/// records and the same state hash: a match is a function of where it
/// started and what the bots sent.
pub proof fn lemma_step_deterministic(
    v1: GameView,
    v2: GameView,
    i1: Seq<Option<Action>>,
    i2: Seq<Option<Action>>,
)
    requires
        v1 == v2,
        i1 == i2,
    ensures
        step_view(v1, i1) == step_view(v2, i2),
        step_records(v1, i1) == step_records(v2, i2),
        fnv(FNV_OFFSET, state_words(step_view(v1, i1))) == fnv(FNV_OFFSET, state_words(step_view(v2, i2))),
{
}

impl GameState {
    /// Advance one tick.
    ///
    /// `inputs` is indexed by player id and holds the newest action received
    /// inside this tick's window, or `None` if the bot sent nothing (treated
    /// as `Noop`). The phase order is the rules: flames age, bombs detonate,
    /// bombs are placed then players move, power-ups are picked up, players
    /// in fire die, sudden death closes a cell, and the end is checked.
    pub fn step(&mut self, inputs: &[Option<Action>]) -> (out: TickOutcome)
        requires
            old(self)@.wf(),
            old(self)@.finished || old(self)@.tick < u32::MAX,
        ensures
            final(self)@.wf(),
            old(self)@.finished ==> final(self)@ == old(self)@ && out.records@.len() == 0
                && out.ended is None,
            final(self)@ == tick_view(old(self)@, inputs@),
            !old(self)@.finished ==> final(self)@ == step_view(old(self)@, inputs@),
            !old(self)@.finished ==> out.records@ == step_records(old(self)@, inputs@),
            !old(self)@.finished ==> ended_ok(
                out.ended,
                before_end(detonation(aged(old(self)@)).0, inputs@),
            ),
            !old(self)@.finished ==> detonated(
                aged(old(self)@),
                detonation(aged(old(self)@)).0,
                detonation(aged(old(self)@)).2,
            ),
            !old(self)@.finished ==> final(self)@.tick == old(self)@.tick + 1,
            !old(self)@.finished ==> evolves(old(self)@, final(self)@),
            !old(self)@.finished ==> (out.ended is Some <==> final(self)@.finished),
    {
        let mut out = TickOutcome::default();
        if self.finished {
            return out;
        }
        let ghost start = self@;
        self.tick = self.tick + 1;
        let ghost ticked = self@;
        proof {
            assert(ticked == GameView { tick: (start.tick + 1) as u32, ..start });
            lemma_wf_tick(start, (start.tick + 1) as u32);
        }
        self.expire_flames(&mut out);
        let ghost ra = out.records@;
        let ghost a = self@;
        proof {
            assert(a =~= aged(start));
            lemma_wf_flames(ticked, a.flames);
        }
        let r = self.detonate_bombs(&mut out);
        let ghost rb = out.records@;
        let ghost b = self@;
        self.apply_inputs(inputs, &mut out);
        let ghost rc = out.records@;
        let ghost c = self@;
        self.collect_powerups(&mut out);
        let ghost rd = out.records@;
        let ghost d = self@;
        self.burn_players(&mut out);
        let ghost e = self@;
        self.advance_sudden_death(&mut out);
        let ghost f = self@;
        assert(f == before_end(b, inputs@));
        self.check_end(&mut out);
        proof {
            lemma_evolves_chain(start, a, b, c, d, e, f, self@);
            lemma_inputs_frame(b, inputs@, b.players.len() as int);
            lemma_inputs_frame(
                place_all(b, inputs@, b.players.len() as int),
                inputs@,
                b.players.len() as int,
            );
            lemma_burn_frame(d, d.players.len() as int);
            assert(f.tick == start.tick + 1);
            assert(!f.finished);
            let blast = rb.subrange(ra.len() as int, rb.len() as int);
            assert(rb =~= ra + blast);
            assert forall|n: int| 0 <= n < blast.len() implies blast_kind(#[trigger] blast[n]) by {
                assert(blast[n] == rb[ra.len() + n]);
            }
            assert forall|id: u16| #[trigger] r@.0.contains(id) implies reports_removal(blast, 0, id) by {
                let n: int = choose|n: int| ra.len() <= n < rb.len() && rb[n] == (DeltaRecord::BombRemove { id });
                assert(blast[n - ra.len()] == rb[n]);
            }
            assert forall|c: (u8, u8)|
                #[trigger] r@.1.contains(c) && a.grid.at(c.0 as int, c.1 as int) == Tile::Soft
                    implies reports_burn(blast, 0, c) by {
                let n: int = choose|n: int|
                    ra.len() <= n < rb.len() && rb[n] == (DeltaRecord::TileSet {
                        x: c.0,
                        y: c.1,
                        tile: Tile::Empty,
                    });
                assert(blast[n - ra.len()] == rb[n]);
            }
            assert(b.bombs == keep_bombs(tick_fuses(a.bombs), r@.0));
            assert(detonated(a, b, blast));
            assert(ra == expired_cells(start.flames, start.grid.width as int, start.grid.width
                * start.grid.height));
            assert(out.records@ =~= tick_records(start, b, inputs@, blast));
            assert(b == detonation(aged(start)).0);
            assert(blast =~= detonation(aged(start)).2);
        }
        out
    }
}

/// The survivor ids are exactly the living players, in order.
proof fn lemma_survivors_alive(ps: Seq<Player>, n: int)
    requires
        0 <= n <= ps.len(),
        ps.len() <= 255,
        forall|i: int| 0 <= i < ps.len() ==> (#[trigger] ps[i]).id == i,
    ensures
        forall|k: int|
            0 <= k < survivor_ids(ps, n).len() ==> (#[trigger] survivor_ids(ps, n)[k]) < n
                && ps[survivor_ids(ps, n)[k] as int].alive,
        forall|i: int| 0 <= i < n && (#[trigger] ps[i]).alive ==> survivor_ids(ps, n).contains(i as u8),
    decreases n,
{
    if n > 0 {
        lemma_survivors_alive(ps, n - 1);
        let a = survivor_ids(ps, n - 1);
        let s = survivor_ids(ps, n);
        assert forall|k: int| 0 <= k < s.len() implies (#[trigger] s[k]) < n && ps[s[k] as int].alive by {
            if k < a.len() {
                assert(s[k] == a[k]);
            }
        }
        assert forall|i: int| 0 <= i < n && (#[trigger] ps[i]).alive implies s.contains(i as u8) by {
            if i < n - 1 {
                let k: int = choose|k: int| 0 <= k < a.len() && a[k] == i as u8;
                assert(s[k] == a[k]);
            } else {
                assert(s[a.len() as int] == ps[n - 1].id);
            }
        }
    }
}

/// The best score is at least every listed player's score.
proof fn lemma_best_score(ps: Seq<Player>, ids: Seq<u8>)
    ensures
        forall|k: int|
            0 <= k < ids.len() ==> ps[(#[trigger] ids[k]) as int].score <= best_score(ps, ids),
    decreases ids.len(),
{
    if ids.len() > 0 {
        lemma_best_score(ps, ids.drop_last());
        assert forall|k: int| 0 <= k < ids.len() implies ps[(#[trigger] ids[k]) as int].score
            <= best_score(ps, ids) by {
            if k < ids.len() - 1 {
                assert(ids[k] == ids.drop_last()[k]);
            }
        }
    }
}

/// The top ids are listed ids with the given score.
proof fn lemma_top_ids(ps: Seq<Player>, ids: Seq<u8>, best: u16)
    ensures
        forall|k: int|
            0 <= k < top_ids(ps, ids, best).len() ==> ids.contains(#[trigger] top_ids(ps, ids, best)[k])
                && ps[top_ids(ps, ids, best)[k] as int].score == best,
    decreases ids.len(),
{
    if ids.len() > 0 {
        let a = top_ids(ps, ids.drop_last(), best);
        lemma_top_ids(ps, ids.drop_last(), best);
        let t = top_ids(ps, ids, best);
        assert forall|k: int| 0 <= k < t.len() implies ids.contains(#[trigger] t[k])
            && ps[t[k] as int].score == best by {
            if k < a.len() {
                assert(t[k] == a[k]);
                let m: int = choose|m: int| 0 <= m < ids.drop_last().len() && ids.drop_last()[m] == a[k];
                assert(ids[m] == a[k]);
            } else {
                assert(t[k] == ids.last());
                assert(ids[ids.len() - 1] == ids.last());
            }
        }
    }
}

/// Nobody among the first `n` ranks ahead of `p`, so none is counted.
proof fn lemma_none_ahead(ps: Seq<Player>, p: Player, n: int)
    requires
        0 <= n <= ps.len(),
        forall|j: int| 0 <= j < n ==> !ranks_ahead(#[trigger] ps[j], p),
    ensures
        ahead_count(ps, p, n) == 0,
    decreases n,
{
    if n > 0 {
        lemma_none_ahead(ps, p, n - 1);
    }
}

/// The winner, when there is one, is alive and takes first place alone:
/// nobody ranks ahead of them.
pub proof fn lemma_winner_ranks_first(v: GameView)
    requires
        v.wf(),
    ensures
        spec_winner(v.players) != NO_PLAYER ==> ({
            let w = spec_winner(v.players) as int;
            &&& 0 <= w < v.players.len()
            &&& v.players[w].alive
            &&& spec_results(v.players)[w].placement == 1
        }),
{
    let ps = v.players;
    let n = ps.len() as int;
    let alive = survivor_ids(ps, n);
    lemma_survivors_alive(ps, n);
    if spec_winner(ps) != NO_PLAYER {
        let w: int = spec_winner(ps) as int;
        if alive.len() == 1 {
            assert(w == alive[0]);
            assert forall|j: int| 0 <= j < n implies !ranks_ahead(#[trigger] ps[j], ps[w]) by {
                if ranks_ahead(ps[j], ps[w]) {
                    assert(ps[j].alive);
                    let k: int = choose|k: int| 0 <= k < alive.len() && alive[k] == j as u8;
                    assert(k == 0);
                }
            }
        } else {
            let best = best_score(ps, alive);
            let top = top_ids(ps, alive, best);
            lemma_best_score(ps, alive);
            lemma_top_ids(ps, alive, best);
            assert(top.len() == 1 && w == top[0]);
            let k0: int = choose|k: int| 0 <= k < alive.len() && alive[k] == top[0];
            assert(alive[k0] == top[0]);
            assert forall|j: int| 0 <= j < n implies !ranks_ahead(#[trigger] ps[j], ps[w]) by {
                if ranks_ahead(ps[j], ps[w]) {
                    assert(ps[j].alive);
                    let k: int = choose|k: int| 0 <= k < alive.len() && alive[k] == j as u8;
                    assert(ps[alive[k] as int].score <= best);
                }
            }
        }
        lemma_none_ahead(ps, ps[w], n);
    }
}

// ---------------------------------------------------------------------------
// Laws
// ---------------------------------------------------------------------------

/// How far a blast would reach scanning outward from step `k`, every step up
/// to `k` being empty.
spec fn scan_arm(g: GridView, b: Bomb, i: int, k: int) -> int
    decreases b.flame - k,
{
    if k >= b.flame {
        b.flame as int
    } else if ray_tile(g, b.x as int, b.y as int, i, k + 1) == Tile::Solid {
        k
    } else if ray_tile(g, b.x as int, b.y as int, i, k + 1) == Tile::Soft {
        k + 1
    } else {
        scan_arm(g, b, i, k + 1)
    }
}

proof fn lemma_scan_arm(g: GridView, b: Bomb, i: int, k: int)
    requires
        0 <= k <= b.flame,
        forall|t: int| 1 <= t <= k ==> #[trigger] ray_tile(g, b.x as int, b.y as int, i, t) == Tile::Empty,
    ensures
        is_arm(g, b.x as int, b.y as int, i, b.flame as int, scan_arm(g, b, i, k)),
    decreases b.flame - k,
{
    if k < b.flame && ray_tile(g, b.x as int, b.y as int, i, k + 1) == Tile::Empty {
        assert forall|t: int| 1 <= t <= k + 1 implies #[trigger] ray_tile(g, b.x as int, b.y as int, i, t)
            == Tile::Empty by {}
        lemma_scan_arm(g, b, i, k + 1);
    }
}

/// Every blast has an arm in every direction, whatever the board.
proof fn lemma_arm_is_arm(g: GridView, b: Bomb, i: int)
    ensures
        is_arm(g, b.x as int, b.y as int, i, b.flame as int, arm(g, b, i)),
{
    lemma_scan_arm(g, b, i, 0);
}

/// A step `s >= 1` of the blast reaches the cell `s` cells away in the `i`th
/// direction exactly when it is within that direction's arm.
proof fn lemma_reach_iff_arm(g: GridView, b: Bomb, i: int, s: int)
    requires
        0 <= i < 4,
        1 <= s,
    ensures
        reaches(g, b, i, s) <==> s <= arm(g, b, i),
{
    lemma_arm_is_arm(g, b, i);
    if reaches(g, b, i, s) {
        lemma_reach_within_arm(g, b, i, s, arm(g, b, i));
    }
    if s <= arm(g, b, i) {
        lemma_arm_reaches(g, b, i, s, arm(g, b, i));
    }
}

/// The cell `s >= 1` cells from the bomb in direction `i` is set alight by
/// the blast exactly when that step is reached: no other ray passes there.
proof fn lemma_in_reach_along(g: GridView, b: Bomb, i: int, s: int)
    requires
        0 <= i < 4,
        1 <= s,
    ensures
        in_reach(g, b, ray(b.x as int, b.y as int, i, s).0, ray(b.x as int, b.y as int, i, s).1)
            <==> reaches(g, b, i, s),
{
    let c = ray(b.x as int, b.y as int, i, s);
    if in_reach(g, b, c.0, c.1) {
        assert(!(c.0 == b.x && c.1 == b.y));
        let (i2, s2): (int, int) = choose|i2: int, s2: int|
            #[trigger] reaches(g, b, i2, s2) && ray(b.x as int, b.y as int, i2, s2) == (c.0, c.1);
        lemma_ray_injective(b.x as int, b.y as int, i, s, i2, s2);
    }
}

/// Different directions or distances land on different cells.
proof fn lemma_ray_injective(x: int, y: int, i: int, s: int, i2: int, s2: int)
    requires
        0 <= i < 4,
        0 <= i2 < 4,
        1 <= s,
        1 <= s2,
        ray(x, y, i, s) == ray(x, y, i2, s2),
    ensures
        i == i2,
        s == s2,
{
    lemma_ray_at(x, y, i, s);
    lemma_ray_at(x, y, i2, s2);
}

/// Where a ray lands, direction by direction.
proof fn lemma_ray_at(x: int, y: int, i: int, s: int)
    requires
        0 <= i < 4,
    ensures
        i == 0 ==> ray(x, y, i, s) == (x, y + s),
        i == 1 ==> ray(x, y, i, s) == (x, y - s),
        i == 2 ==> ray(x, y, i, s) == (x - s, y),
        i == 3 ==> ray(x, y, i, s) == (x + s, y),
{
    if i == 0 {
        assert(spec_delta(direction_at(i)) == (0i32, 1i32));
        assert(0 * s == 0 && 1 * s == s) by (nonlinear_arith);
    } else if i == 1 {
        assert(spec_delta(direction_at(i)) == (0i32, -1i32));
        assert(0 * s == 0 && -1 * s == -s) by (nonlinear_arith);
    } else if i == 2 {
        assert(spec_delta(direction_at(i)) == (-1i32, 0i32));
        assert(0 * s == 0 && -1 * s == -s) by (nonlinear_arith);
    } else {
        assert(spec_delta(direction_at(i)) == (1i32, 0i32));
        assert(0 * s == 0 && 1 * s == s) by (nonlinear_arith);
    }
}

/// The blast record an explosion reports gives, for each of up, down, left
/// and right, exactly how many cells in that direction the blast sets
/// alight: a cell `s >= 1` cells away in that direction is lit by this bomb
/// if and only if `s` is at most the recorded length.
pub proof fn lemma_explosion_record_matches_blast(v: GameView, b: Bomb)
    ensures
        explode_records(v, b)[0] matches DeltaRecord::Explosion { x, y, up, down, left, right } && x
            == b.x && y == b.y && (forall|cx: int, cy: int|
            cx == b.x && cy < b.y ==> (#[trigger] in_reach(v.grid, b, cx, cy) <==> b.y - cy <= up))
            && (forall|cx: int, cy: int|
            cx == b.x && cy > b.y ==> (#[trigger] in_reach(v.grid, b, cx, cy) <==> cy - b.y <= down))
            && (forall|cx: int, cy: int|
            cy == b.y && cx < b.x ==> (#[trigger] in_reach(v.grid, b, cx, cy) <==> b.x - cx <= left))
            && (forall|cx: int, cy: int|
            cy == b.y && cx > b.x ==> (#[trigger] in_reach(v.grid, b, cx, cy) <==> cx - b.x <= right)),
{
    let g = v.grid;
    lemma_arm_is_arm(g, b, 0);
    lemma_arm_is_arm(g, b, 1);
    lemma_arm_is_arm(g, b, 2);
    lemma_arm_is_arm(g, b, 3);
    assert(direction_at(0) == Direction::Down);
    assert(direction_at(1) == Direction::Up);
    assert(direction_at(2) == Direction::Left);
    assert(direction_at(3) == Direction::Right);
    assert forall|cx: int, cy: int| cx == b.x && cy < b.y implies (#[trigger] in_reach(g, b, cx, cy)
        <==> b.y - cy <= arm(g, b, 1)) by {
        let s = b.y - cy;
        assert(ray(b.x as int, b.y as int, 1, s) == (cx, cy));
        lemma_in_reach_along(g, b, 1, s);
        lemma_reach_iff_arm(g, b, 1, s);
    }
    assert forall|cx: int, cy: int| cx == b.x && cy > b.y implies (#[trigger] in_reach(g, b, cx, cy)
        <==> cy - b.y <= arm(g, b, 0)) by {
        let s = cy - b.y;
        assert(ray(b.x as int, b.y as int, 0, s) == (cx, cy));
        lemma_in_reach_along(g, b, 0, s);
        lemma_reach_iff_arm(g, b, 0, s);
    }
    assert forall|cx: int, cy: int| cy == b.y && cx < b.x implies (#[trigger] in_reach(g, b, cx, cy)
        <==> b.x - cx <= arm(g, b, 2)) by {
        let s = b.x - cx;
        assert(ray(b.x as int, b.y as int, 2, s) == (cx, cy));
        lemma_in_reach_along(g, b, 2, s);
        lemma_reach_iff_arm(g, b, 2, s);
    }
    assert forall|cx: int, cy: int| cy == b.y && cx > b.x implies (#[trigger] in_reach(g, b, cx, cy)
        <==> cx - b.x <= arm(g, b, 3)) by {
        let s = cx - b.x;
        assert(ray(b.x as int, b.y as int, 3, s) == (cx, cy));
        lemma_in_reach_along(g, b, 3, s);
        lemma_reach_iff_arm(g, b, 3, s);
    }
    assert(0 <= arm(g, b, 0) <= b.flame && 0 <= arm(g, b, 1) <= b.flame);
    assert(0 <= arm(g, b, 2) <= b.flame && 0 <= arm(g, b, 3) <= b.flame);
}

/// A settled living player who heads for an on-board empty cell with no bomb
/// on it and no other living player on it steps into that cell this tick:
/// its position becomes that cell, it faces that way, and its step is under
/// way. A dead player on the cell does not stop it.
pub proof fn lemma_step_into_open_cell(v: GameView, i: int, d: Direction)
    requires
        0 <= i < v.players.len(),
        v.players[i].alive,
        v.players[i].move_progress == 0,
        v.grid.in_bounds(v.players[i].x + spec_delta(d).0, v.players[i].y + spec_delta(d).1),
        v.grid.at(v.players[i].x + spec_delta(d).0, v.players[i].y + spec_delta(d).1) == Tile::Empty,
        forall|k: int|
            0 <= k < v.bombs.len() ==> !((#[trigger] v.bombs[k]).x == v.players[i].x + spec_delta(d).0
                && v.bombs[k].y == v.players[i].y + spec_delta(d).1),
        forall|j: int|
            0 <= j < v.players.len() && j != i && (#[trigger] v.players[j]).alive ==> !(v.players[j].x
                == v.players[i].x + spec_delta(d).0 && v.players[j].y == v.players[i].y + spec_delta(
                d,
            ).1),
    ensures
        spec_advance(v, i, Some(d)).players[i].x == v.players[i].x + spec_delta(d).0,
        spec_advance(v, i, Some(d)).players[i].y == v.players[i].y + spec_delta(d).1,
        spec_advance(v, i, Some(d)).players[i].dir == d,
        spec_advance(v, i, Some(d)).players[i].move_progress == 1,
        spec_advance(v, i, Some(d)).players[i].alive,
{
    let nx = v.players[i].x + spec_delta(d).0;
    let ny = v.players[i].y + spec_delta(d).1;
    lemma_bomb_index_at(v.bombs, nx as u8, ny as u8);
    match bomb_index_at(v.bombs, nx as u8, ny as u8) {
        Some(k) => {
            assert(v.bombs[k].x == nx && v.bombs[k].y == ny);
        },
        None => {},
    }
    assert(spec_can_enter(v, i, nx, ny));
}

/// A living player standing on a power-up takes the first one on its cell,
/// and it adds one to the matching stat up to that stat's cap: a bomb up to
/// 255, flame up to `max_flame`, speed up to `max_speed`. Nothing else about
/// the player changes.
pub proof fn lemma_pickup_adds_one_up_to_the_cap(v: GameView, i: int, u: int)
    requires
        0 <= i < v.players.len(),
        v.players[i].alive,
        0 <= u < v.powerups.len(),
        v.powerups[u].x == v.players[i].x && v.powerups[u].y == v.players[i].y,
        forall|k: int|
            0 <= k < u ==> !((#[trigger] v.powerups[k]).x == v.players[i].x && v.powerups[k].y
                == v.players[i].y),
    ensures
        ({
            let p = v.players[i];
            let q = spec_collect(v).players[i];
            &&& v.powerups[u].kind == PowerupKind::Flame ==> q == Player {
                flame: (if p.flame + 1 <= v.rules.max_flame {
                    p.flame + 1
                } else {
                    v.rules.max_flame as int
                }) as u8,
                ..p
            }
            &&& v.powerups[u].kind == PowerupKind::Speed ==> q == Player {
                speed: (if p.speed + 1 <= v.rules.max_speed {
                    p.speed + 1
                } else {
                    v.rules.max_speed as int
                }) as u8,
                ..p
            }
            &&& v.powerups[u].kind == PowerupKind::ExtraBomb ==> q == Player {
                bombs_max: (if p.bombs_max + 1 <= 255 {
                    p.bombs_max + 1
                } else {
                    255
                }) as u8,
                ..p
            }
        }),
{
    let p = v.players[i];
    lemma_powerup_index_at(v.powerups, p.x, p.y);
    assert(claim(v, i) == Some(u));
}

/// The survivors are listed in order of id, each once, and all of them.
proof fn lemma_survivors_listed(ps: Seq<Player>, n: int)
    requires
        0 <= n <= ps.len(),
        ps.len() <= 256,
        forall|k: int| 0 <= k < ps.len() ==> (#[trigger] ps[k]).id == k,
    ensures
        forall|a: int, b: int|
            0 <= a < b < survivor_ids(ps, n).len() ==> #[trigger] survivor_ids(ps, n)[a]
                < #[trigger] survivor_ids(ps, n)[b],
        forall|a: int|
            0 <= a < survivor_ids(ps, n).len() ==> (#[trigger] survivor_ids(ps, n)[a]) < n
                && ps[survivor_ids(ps, n)[a] as int].alive,
        forall|j: int| 0 <= j < n && (#[trigger] ps[j]).alive ==> survivor_ids(ps, n).contains(j as u8),
    decreases n,
{
    if n > 0 {
        lemma_survivors_listed(ps, n - 1);
        let a = survivor_ids(ps, n - 1);
        let t = if ps[n - 1].alive {
            seq![ps[n - 1].id]
        } else {
            Seq::<u8>::empty()
        };
        assert(survivor_ids(ps, n) == a + t);
        assert forall|j: int| 0 <= j < n && (#[trigger] ps[j]).alive implies survivor_ids(ps, n).contains(
            j as u8,
        ) by {
            if j < n - 1 {
                let k: int = choose|k: int| 0 <= k < a.len() && a[k] == j as u8;
                assert(survivor_ids(ps, n)[k] == a[k]);
            } else {
                assert(survivor_ids(ps, n)[a.len() as int] == ps[n - 1].id);
            }
        }
    }
}

/// The best score among some players is the score of one of them and at
/// least everyone's.
proof fn lemma_best_score_attained(ps: Seq<Player>, ids: Seq<u8>)
    requires
        forall|k: int| 0 <= k < ids.len() ==> (#[trigger] ids[k] as int) < ps.len(),
    ensures
        forall|k: int| 0 <= k < ids.len() ==> ps[(#[trigger] ids[k]) as int].score <= best_score(ps, ids),
        ids.len() > 0 ==> exists|k: int| 0 <= k < ids.len() && ps[ids[k] as int].score == best_score(ps, ids),
    decreases ids.len(),
{
    if ids.len() > 0 {
        let r = ids.drop_last();
        assert forall|k: int| 0 <= k < r.len() implies (#[trigger] r[k] as int) < ps.len() by {
            assert(r[k] == ids[k]);
        }
        lemma_best_score_attained(ps, r);
        assert forall|k: int| 0 <= k < ids.len() implies ps[(#[trigger] ids[k]) as int].score <= best_score(
            ps,
            ids,
        ) by {
            if k < r.len() {
                assert(r[k] == ids[k]);
            }
        }
        if r.len() > 0 && ps[ids.last() as int].score <= best_score(ps, r) {
            let k: int = choose|k: int| 0 <= k < r.len() && ps[r[k] as int].score == best_score(ps, r);
            assert(ids[k] == r[k]);
        } else {
            assert(ids[ids.len() - 1] == ids.last());
        }
    }
}

/// No listed player has score `best`: nobody is on top.
proof fn lemma_top_none(ps: Seq<Player>, ids: Seq<u8>, best: u16)
    requires
        forall|k: int| 0 <= k < ids.len() ==> ps[(#[trigger] ids[k]) as int].score != best,
    ensures
        top_ids(ps, ids, best) == Seq::<u8>::empty(),
    decreases ids.len(),
{
    if ids.len() > 0 {
        let r = ids.drop_last();
        assert forall|k: int| 0 <= k < r.len() implies ps[(#[trigger] r[k]) as int].score != best by {
            assert(r[k] == ids[k]);
        }
        lemma_top_none(ps, r, best);
        assert(ps[ids[ids.len() - 1] as int].score != best);
    }
}

/// One listed player has score `best`, every other a lower one: only it is on top.
proof fn lemma_top_single(ps: Seq<Player>, ids: Seq<u8>, i: u8, best: u16)
    requires
        forall|a: int, b: int| 0 <= a < b < ids.len() ==> #[trigger] ids[a] < #[trigger] ids[b],
        ids.contains(i),
        ps[i as int].score == best,
        forall|k: int| 0 <= k < ids.len() && ids[k] != i ==> ps[(#[trigger] ids[k]) as int].score < best,
    ensures
        top_ids(ps, ids, best) == seq![i],
    decreases ids.len(),
{
    let r = ids.drop_last();
    if ids.last() == i {
        assert forall|k: int| 0 <= k < r.len() implies ps[(#[trigger] r[k]) as int].score != best by {
            assert(r[k] == ids[k]);
            assert(ids[k] < ids[ids.len() - 1]);
        }
        lemma_top_none(ps, r, best);
        assert(top_ids(ps, ids, best) =~= seq![i]);
    } else {
        let k: int = choose|k: int| 0 <= k < ids.len() && ids[k] == i;
        assert(k < ids.len() - 1);
        assert(r[k] == i);
        assert forall|a: int, b: int| 0 <= a < b < r.len() implies #[trigger] r[a] < #[trigger] r[b] by {
            assert(r[a] == ids[a] && r[b] == ids[b]);
        }
        assert forall|m: int| 0 <= m < r.len() && r[m] != i implies ps[(#[trigger] r[m]) as int].score < best by {
            assert(r[m] == ids[m]);
        }
        lemma_top_single(ps, r, i, best);
        assert(ps[ids[ids.len() - 1] as int].score < best);
        assert(top_ids(ps, ids, best) =~= seq![i]);
    }
}

/// With two or more players alive, a survivor whose score is strictly higher
/// than every other survivor's is the winner.
pub proof fn lemma_sole_top_survivor_wins(ps: Seq<Player>, i: int, j: int)
    requires
        ps.len() <= 255,
        forall|k: int| 0 <= k < ps.len() ==> (#[trigger] ps[k]).id == k,
        0 <= i < ps.len(),
        0 <= j < ps.len(),
        i != j,
        ps[i].alive,
        ps[j].alive,
        forall|k: int| 0 <= k < ps.len() && k != i && (#[trigger] ps[k]).alive ==> ps[k].score < ps[i].score,
    ensures
        spec_winner(ps) == i as u8,
{
    let alive = survivor_ids(ps, ps.len() as int);
    lemma_survivors_listed(ps, ps.len() as int);
    assert(alive.contains(i as u8));
    assert(alive.contains(j as u8));
    let a: int = choose|a: int| 0 <= a < alive.len() && alive[a] == i as u8;
    let b: int = choose|b: int| 0 <= b < alive.len() && alive[b] == j as u8;
    assert(a != b);
    assert(alive.len() >= 2);
    assert forall|k: int| 0 <= k < alive.len() implies (#[trigger] alive[k] as int) < ps.len() by {}
    lemma_best_score_attained(ps, alive);
    assert forall|k: int| 0 <= k < alive.len() && alive[k] != i as u8 implies ps[(#[trigger] alive[k]) as int].score
        < ps[i].score by {
        assert(ps[alive[k] as int].alive);
    }
    let best = best_score(ps, alive);
    assert(ps[alive[a] as int].score <= best);
    let m: int = choose|m: int| 0 <= m < alive.len() && ps[alive[m] as int].score == best;
    if alive[m] != i as u8 {
        assert(ps[alive[m] as int].score < ps[i].score);
    }
    assert(best == ps[i].score);
    lemma_top_single(ps, alive, i as u8, best);
}

/// When the end check ends the match, every player alive at that moment
/// gains exactly `SCORE_WIN` (stopping at the largest score), whatever ended
/// it, and every other player keeps its score; the match is then finished.
pub proof fn lemma_end_awards_every_survivor(f: GameView)
    requires
        match_over(f),
    ensures
        ended_state(f).finished,
        ended_state(f).players.len() == f.players.len(),
        forall|k: int|
            0 <= k < f.players.len() ==> (#[trigger] ended_state(f).players[k]).score as int == if f.players[k].alive {
                if f.players[k].score + SCORE_WIN <= u16::MAX {
                    f.players[k].score + SCORE_WIN
                } else {
                    u16::MAX as int
                }
            } else {
                f.players[k].score as int
            },
{
}

/// Every listed player with score `best` is on top.
proof fn lemma_top_has(ps: Seq<Player>, ids: Seq<u8>, best: u16)
    ensures
        forall|k: int|
            0 <= k < ids.len() && ps[(#[trigger] ids[k]) as int].score == best ==> top_ids(
                ps,
                ids,
                best,
            ).contains(ids[k]),
    decreases ids.len(),
{
    if ids.len() > 0 {
        let r = ids.drop_last();
        lemma_top_has(ps, r, best);
        let t = top_ids(ps, ids, best);
        let a = top_ids(ps, r, best);
        assert forall|k: int| 0 <= k < ids.len() && ps[(#[trigger] ids[k]) as int].score == best implies t.contains(
            ids[k],
        ) by {
            if k < r.len() {
                assert(r[k] == ids[k]);
                let m: int = choose|m: int| 0 <= m < a.len() && a[m] == r[k];
                assert(t[m] == a[m]);
            } else {
                assert(t[a.len() as int] == ids.last());
            }
        }
    }
}

/// The winner, case by case: with nobody alive there is none; a sole
/// survivor wins; with two or more alive, survivors tied for the highest
/// score make a draw.
pub proof fn lemma_winner_cases(ps: Seq<Player>, i: int, j: int)
    requires
        ps.len() <= 255,
        forall|k: int| 0 <= k < ps.len() ==> (#[trigger] ps[k]).id == k,
        0 <= i < ps.len(),
        0 <= j < ps.len(),
    ensures
        (forall|k: int| 0 <= k < ps.len() ==> !(#[trigger] ps[k]).alive) ==> spec_winner(ps) == NO_PLAYER,
        ps[i].alive && (forall|k: int| 0 <= k < ps.len() && k != i ==> !(#[trigger] ps[k]).alive)
            ==> spec_winner(ps) == i as u8,
        i != j && ps[i].alive && ps[j].alive && ps[i].score == ps[j].score && (forall|k: int|
            0 <= k < ps.len() && (#[trigger] ps[k]).alive ==> ps[k].score <= ps[i].score)
            ==> spec_winner(ps) == NO_PLAYER,
{
    let alive = survivor_ids(ps, ps.len() as int);
    lemma_survivors_listed(ps, ps.len() as int);
    if forall|k: int| 0 <= k < ps.len() ==> !(#[trigger] ps[k]).alive {
        if alive.len() > 0 {
            assert(ps[alive[0] as int].alive);
        }
    }
    if ps[i].alive && (forall|k: int| 0 <= k < ps.len() && k != i ==> !(#[trigger] ps[k]).alive) {
        assert(alive.contains(i as u8));
        assert forall|k: int| 0 <= k < alive.len() implies alive[k] == i as u8 by {
            assert(ps[alive[k] as int].alive);
        }
        if alive.len() > 1 {
            assert(alive[0] < alive[1]);
        }
        assert(alive.len() == 1);
    }
    if i != j && ps[i].alive && ps[j].alive && ps[i].score == ps[j].score && (forall|k: int|
        0 <= k < ps.len() && (#[trigger] ps[k]).alive ==> ps[k].score <= ps[i].score) {
        assert(alive.contains(i as u8));
        assert(alive.contains(j as u8));
        let a: int = choose|a: int| 0 <= a < alive.len() && alive[a] == i as u8;
        let b: int = choose|b: int| 0 <= b < alive.len() && alive[b] == j as u8;
        assert(a != b);
        assert(alive.len() >= 2);
        assert forall|k: int| 0 <= k < alive.len() implies (#[trigger] alive[k] as int) < ps.len() by {}
        lemma_best_score_attained(ps, alive);
        let best = best_score(ps, alive);
        let m: int = choose|m: int| 0 <= m < alive.len() && ps[alive[m] as int].score == best;
        assert(ps[alive[m] as int].alive);
        assert(ps[alive[a] as int].score <= best);
        assert(best == ps[i].score);
        lemma_top_has(ps, alive, best);
        let t = top_ids(ps, alive, best);
        assert(t.contains(alive[a]));
        assert(t.contains(alive[b]));
        if t.len() == 1 {
            let p: int = choose|p: int| 0 <= p < t.len() && t[p] == alive[a];
            let q: int = choose|q: int| 0 <= q < t.len() && t[q] == alive[b];
            assert(p == 0 && q == 0);
        }
    }
}

/// A settled living player heading for a cell that is off the board, not
/// empty, under a bomb, or taken by another living player only turns to
/// face it.
pub proof fn lemma_blocked_cell_only_turns(v: GameView, i: int, d: Direction)
    requires
        0 <= i < v.players.len(),
        v.players[i].alive,
        v.players[i].move_progress == 0,
        !v.grid.in_bounds(v.players[i].x + spec_delta(d).0, v.players[i].y + spec_delta(d).1)
            || v.grid.at(v.players[i].x + spec_delta(d).0, v.players[i].y + spec_delta(d).1)
            != Tile::Empty || (exists|k: int|
            0 <= k < v.bombs.len() && (#[trigger] v.bombs[k]).x == v.players[i].x + spec_delta(d).0
                && v.bombs[k].y == v.players[i].y + spec_delta(d).1) || (exists|j: int|
            0 <= j < v.players.len() && j != i && (#[trigger] v.players[j]).alive && v.players[j].x
                == v.players[i].x + spec_delta(d).0 && v.players[j].y == v.players[i].y + spec_delta(
                d,
            ).1),
    ensures
        spec_advance(v, i, Some(d)).players[i] == (Player { dir: d, ..v.players[i] }),
{
    let nx = v.players[i].x + spec_delta(d).0;
    let ny = v.players[i].y + spec_delta(d).1;
    if v.grid.in_bounds(nx, ny) && v.grid.at(nx, ny) == Tile::Empty {
        if exists|k: int| 0 <= k < v.bombs.len() && (#[trigger] v.bombs[k]).x == nx && v.bombs[k].y == ny {
            let k: int = choose|k: int| 0 <= k < v.bombs.len() && (#[trigger] v.bombs[k]).x == nx && v.bombs[k].y == ny;
            lemma_bomb_index_at(v.bombs, nx as u8, ny as u8);
            assert(v.bombs[k].x == nx as u8 && v.bombs[k].y == ny as u8);
        }
    }
    assert(!spec_can_enter(v, i, nx, ny));
}

} // verus!
