//! Procedural map generation.
//!
//! Maps are generated from a width/height pair rather than authored. The
//! fixed geometry -- border ring, pillar lattice, cleared spawn corners -- is
//! the same for every seed; only the soft blocks are rolled, once per symmetry
//! class, so no bot is dealt a more open corner than another.
use vstd::prelude::*;

use crate::proto::types::{
    lemma_cell_index, lemma_index_in_range, lemma_mul_u8, Direction, GridView, Tile, TileGrid,
};

use super::reach::{
    adjacent, count_false, lemma_closed_holds_reachable, lemma_count_false_set, lemma_neighbours,
    lemma_reachable_refl, lemma_reachable_step, neighbour, open_cell, reachable,
};
use super::rng::{pcg_ratio, pcg_seed, roll_ratio, seeded};

verus! {

/// Smallest board that still has an interior worth playing in.
pub const MIN_DIMENSION: u8 = 7;

/// Coordinates are `u8` on the wire, and a board this size is already absurd.
pub const MAX_DIMENSION: u8 = 63;

/// How the soft-block roll is mirrored across the board.
#[derive(Debug, Clone, Copy, PartialEq, Eq, Structural)]
pub enum Symmetry {
    /// Every eligible cell rolled independently.
    Independent,
    /// Left half rolled, mirrored onto the right.
    MirrorX,
    /// Top-left quadrant rolled, mirrored onto the other three.
    Quad,
}

impl Default for Symmetry {
    fn default() -> (s: Self)
        ensures
            s == Symmetry::Quad,
    {
        Symmetry::Quad
    }
}

/// The chance that an eligible cell gets a soft block: `numerator` in
/// `denominator`, read as certain when the numerator is the larger.
#[derive(Debug, Clone, Copy, PartialEq, Eq, Structural)]
pub struct Density {
    pub numerator: u32,
    pub denominator: u32,
}

#[derive(Debug, Clone, Copy, PartialEq, Eq, Structural)]
pub struct MapConfig {
    pub width: u8,
    pub height: u8,
    pub soft_block_density: Density,
    pub symmetry: Symmetry,
}

impl Default for MapConfig {
    /// A 15x13 board, three soft blocks in four eligible cells, quad symmetry.
    fn default() -> (c: Self)
        ensures
            c.width == 15,
            c.height == 13,
            c.symmetry == Symmetry::Quad,
            c.soft_block_density == (Density { numerator: 3, denominator: 4 }),
    {
        MapConfig {
            width: 15,
            height: 13,
            soft_block_density: Density { numerator: 3, denominator: 4 },
            symmetry: Symmetry::Quad,
        }
    }
}

#[derive(Debug, Clone, PartialEq, Eq)]
pub struct GeneratedMap {
    pub grid: TileGrid,
    /// Indexed by player id.
    pub spawns: Vec<(u8, u8)>,
}

pub open spec fn spec_normalize(v: u8) -> u8 {
    let c = if v < MIN_DIMENSION {
        MIN_DIMENSION
    } else if v > MAX_DIMENSION {
        MAX_DIMENSION
    } else {
        v
    };
    if c % 2 == 0 {
        (c + 1) as u8
    } else {
        c
    }
}

/// Round up to odd and clamp into the playable range.
///
/// Odd dimensions make the interior pillar lattice line up with the solid
/// border on every side.
pub fn normalize_dimension(v: u8) -> (r: u8)
    ensures
        r == spec_normalize(v),
        MIN_DIMENSION <= r <= MAX_DIMENSION,
        r % 2 == 1,
{
    let v = if v < MIN_DIMENSION {
        MIN_DIMENSION
    } else if v > MAX_DIMENSION {
        MAX_DIMENSION
    } else {
        v
    };
    if v % 2 == 0 {
        let up = v + 1;
        if up < MAX_DIMENSION {
            up
        } else {
            MAX_DIMENSION
        }
    } else {
        v
    }
}

/// Border ring or pillar lattice.
pub open spec fn spec_is_structural(x: int, y: int, w: int, h: int) -> bool {
    x == 0 || y == 0 || x == w - 1 || y == h - 1 || (x % 2 == 0 && y % 2 == 0)
}

/// Is this cell part of the fixed geometry (border ring or pillar lattice)?
pub fn is_structural(x: u8, y: u8, w: u8, h: u8) -> (b: bool)
    requires
        w >= 1,
        h >= 1,
    ensures
        b == spec_is_structural(x as int, y as int, w as int, h as int),
{
    x == 0 || y == 0 || x == w - 1 || y == h - 1 || (x % 2 == 0 && y % 2 == 0)
}

/// The eight spawn cells in player-id order: inner corners, then edge
/// midpoints snapped to odd coordinates.
pub open spec fn spawn_candidates(w: u8, h: u8) -> Seq<(u8, u8)> {
    seq![
        (1u8, 1u8),
        ((w - 2) as u8, 1u8),
        (1u8, (h - 2) as u8),
        ((w - 2) as u8, (h - 2) as u8),
        ((w / 2) | 1u8, 1u8),
        ((w / 2) | 1u8, (h - 2) as u8),
        (1u8, (h / 2) | 1u8),
        ((w - 2) as u8, (h / 2) | 1u8),
    ]
}

pub open spec fn spawn_count(players: u8) -> int {
    if players < 1 {
        1
    } else if players > 8 {
        8
    } else {
        players as int
    }
}

pub open spec fn spec_spawn_cells(w: u8, h: u8, players: u8) -> Seq<(u8, u8)> {
    spawn_candidates(w, h).take(spawn_count(players))
}

/// Spawn cells in player-id order: the four inner corners, then edge midpoints.
pub fn spawn_cells(w: u8, h: u8, players: u8) -> (cells: Vec<(u8, u8)>)
    requires
        w >= 2,
        h >= 2,
    ensures
        cells@ == spec_spawn_cells(w, h, players),
{
    let mut cells = vec![
        (1u8, 1u8),
        (w - 2, 1u8),
        (1u8, h - 2),
        (w - 2, h - 2),
        (w / 2 | 1, 1u8),
        (w / 2 | 1, h - 2),
        (1u8, h / 2 | 1),
        (w - 2, h / 2 | 1),
    ];
    assert(cells@ =~= spawn_candidates(w, h));
    let keep: usize = if players < 1 {
        1
    } else {
        players as usize
    };
    cells.truncate(keep);
    assert(cells@ =~= spec_spawn_cells(w, h, players));
    cells
}

/// The spawn cell plus its two neighbours pointing at the board centre.
pub open spec fn spec_safe_cells(spawn: (u8, u8), w: u8, h: u8) -> Seq<(u8, u8)> {
    let (x, y) = spawn;
    let dx: int = if x < w / 2 {
        1
    } else {
        -1
    };
    let dy: int = if y < h / 2 {
        1
    } else {
        -1
    };
    seq![(x, y), ((x + dx) as u8, y), (x, (y + dy) as u8)]
}

/// The spawn cell plus the two neighbours pointing at the board centre.
///
/// Keeping this L-shape clear stops a bot spawning walled in, or being
/// trapped by the first bomb anyone drops.
pub fn safe_cells(spawn: (u8, u8), w: u8, h: u8) -> (cells: [(u8, u8); 3])
    ensures
        cells@ == spec_safe_cells(spawn, w, h),
{
    let (x, y) = spawn;
    let dx: i32 = if (x as i32) < (w as i32) / 2 {
        1
    } else {
        -1
    };
    let dy: i32 = if (y as i32) < (h as i32) / 2 {
        1
    } else {
        -1
    };
    let out = [(x, y), ((x as i32 + dx) as u8, y), (x, (y as i32 + dy) as u8)];
    assert(out@ =~= spec_safe_cells(spawn, w, h));
    out
}

/// Cleared for a spawn: one of its safe cells, on the board and not fixed
/// geometry.
pub open spec fn spec_protected(spawns: Seq<(u8, u8)>, w: u8, h: u8, x: int, y: int) -> bool {
    &&& 0 <= x < w
    &&& 0 <= y < h
    &&& !spec_is_structural(x, y, w as int, h as int)
    &&& exists|s: int, k: int|
        0 <= s < spawns.len() && 0 <= k < 3 && #[trigger] spec_safe_cells(spawns[s], w, h)[k] == (
            x as u8,
            y as u8,
        )
}

/// The representative of a cell's symmetry class: the cell the roll for it
/// is made at.
pub open spec fn rep(sym: Symmetry, w: int, h: int, x: int, y: int) -> (int, int) {
    let mx = if x <= w - 1 - x {
        x
    } else {
        w - 1 - x
    };
    let my = if y <= h - 1 - y {
        y
    } else {
        h - 1 - y
    };
    match sym {
        Symmetry::Independent => (x, y),
        Symmetry::MirrorX => (mx, y),
        Symmetry::Quad => (mx, my),
    }
}

/// How many columns, then rows, of representatives are rolled.
pub open spec fn roll_range(sym: Symmetry, w: u8, h: u8) -> (int, int) {
    match sym {
        Symmetry::Independent => (w as int, h as int),
        Symmetry::MirrorX => ((w as int + 1) / 2, h as int),
        Symmetry::Quad => ((w as int + 1) / 2, (h as int + 1) / 2),
    }
}

/// The cells sharing a roll with `(x, y)`, as a set.
pub open spec fn mirror_set(sym: Symmetry, w: u8, h: u8, x: u8, y: u8) -> Set<(u8, u8)> {
    let mx = (w - 1 - x) as u8;
    let my = (h - 1 - y) as u8;
    match sym {
        Symmetry::Independent => set![(x, y)],
        Symmetry::MirrorX => set![(x, y), (mx, y)],
        Symmetry::Quad => set![(x, y), (mx, y), (x, my), (mx, my)],
    }
}

pub open spec fn cell_lt(a: (u8, u8), b: (u8, u8)) -> bool {
    a.0 < b.0 || (a.0 == b.0 && a.1 < b.1)
}

pub open spec fn strictly_sorted(s: Seq<(u8, u8)>) -> bool {
    forall|i: int, j: int| 0 <= i < j < s.len() ==> cell_lt(#[trigger] s[i], #[trigger] s[j])
}

/// Insert `c` into a strictly sorted list unless it is already there.
fn insert_sorted(v: &mut Vec<(u8, u8)>, c: (u8, u8))
    requires
        strictly_sorted(old(v)@),
        old(v)@.len() < 4,
    ensures
        strictly_sorted(final(v)@),
        final(v)@.to_set() == old(v)@.to_set().insert(c),
        final(v)@.len() <= old(v)@.len() + 1,
{
    let mut i: usize = 0;
    while i < v.len() && (v[i].0 < c.0 || (v[i].0 == c.0 && v[i].1 < c.1))
        invariant
            i <= v@.len(),
            v@ == old(v)@,
            forall|k: int| 0 <= k < i ==> cell_lt(#[trigger] v@[k], c),
        decreases v@.len() - i,
    {
        i = i + 1;
    }
    if i < v.len() && v[i].0 == c.0 && v[i].1 == c.1 {
        assert(v@.to_set().insert(c) =~= v@.to_set()) by {
            assert(v@.contains(c));
        }
        return;
    }
    let ghost before = v@;
    v.insert(i, c);
    assert(v@.to_set() =~= before.to_set().insert(c)) by {
        assert forall|e| #[trigger] v@.to_set().contains(e) <==> before.to_set().insert(c).contains(e) by {
            if v@.contains(e) {
                let k: int = choose|k: int| 0 <= k < v@.len() && v@[k] == e;
                if k < i {
                    assert(before[k] == e);
                } else if k > i {
                    assert(before[k - 1] == e);
                }
            }
            if before.contains(e) {
                let k: int = choose|k: int| 0 <= k < before.len() && before[k] == e;
                if k < i {
                    assert(v@[k] == e);
                } else {
                    assert(v@[k + 1] == e);
                }
            }
            if e == c {
                assert(v@[i as int] == c);
            }
        }
    }
}

/// The distinct cells sharing a roll with `(x, y)`, in ascending order.
pub fn mirrors(x: u8, y: u8, w: u8, h: u8, sym: Symmetry) -> (out: Vec<(u8, u8)>)
    requires
        x < w,
        y < h,
    ensures
        strictly_sorted(out@),
        out@.to_set() == mirror_set(sym, w, h, x, y),
{
    let mx = w - 1 - x;
    let my = h - 1 - y;
    let mut out: Vec<(u8, u8)> = Vec::new();
    assert(out@.to_set() =~= Set::<(u8, u8)>::empty());
    insert_sorted(&mut out, (x, y));
    match sym {
        Symmetry::Independent => {},
        Symmetry::MirrorX => {
            insert_sorted(&mut out, (mx, y));
        },
        Symmetry::Quad => {
            insert_sorted(&mut out, (mx, y));
            insert_sorted(&mut out, (x, my));
            insert_sorted(&mut out, (mx, my));
        },
    }
    assert(out@.to_set() =~= mirror_set(sym, w, h, x, y));
    out
}

/// The tile generation gives a cell before any soft block is rolled.
pub open spec fn base_tile(x: int, y: int, w: int, h: int) -> Tile {
    if spec_is_structural(x, y, w, h) {
        Tile::Solid
    } else {
        Tile::Empty
    }
}

/// The empty lattice: solid border ring and pillars, everything else open.
fn lattice(w: u8, h: u8) -> (g: TileGrid)
    requires
        w >= 1,
        h >= 1,
    ensures
        g.width == w,
        g.height == h,
        g@.wf(),
        forall|x: int, y: int|
            0 <= x < w && 0 <= y < h ==> #[trigger] g@.at(x, y) == base_tile(
                x,
                y,
                w as int,
                h as int,
            ),
{
    let mut grid = TileGrid::new(w, h);
    proof {
        lemma_mul_u8(w, h);
    }
    assert forall|cx: int, cy: int| 0 <= cx < w && 0 <= cy < h implies #[trigger] grid@.at(cx, cy)
        == Tile::Empty by {
        lemma_index_in_range(grid@, cx, cy);
    }
    let mut y: u8 = 0;
    while y < h
        invariant
            1 <= w,
            y <= h,
            grid.width == w,
            grid.height == h,
            grid@.wf(),
            forall|cx: int, cy: int|
                0 <= cx < w && 0 <= cy < h ==> #[trigger] grid@.at(cx, cy) == if cy < y {
                    base_tile(cx, cy, w as int, h as int)
                } else {
                    Tile::Empty
                },
        decreases h - y,
    {
        let mut x: u8 = 0;
        while x < w
            invariant
                1 <= w,
                y < h,
                x <= w,
                grid.width == w,
                grid.height == h,
                grid@.wf(),
                forall|cx: int, cy: int|
                    0 <= cx < w && 0 <= cy < h ==> #[trigger] grid@.at(cx, cy) == if cy < y || (
                    cy == y && cx < x) {
                        base_tile(cx, cy, w as int, h as int)
                    } else {
                        Tile::Empty
                    },
            decreases w - x,
        {
            if is_structural(x, y, w, h) {
                grid.set(x, y, Tile::Solid);
            }
            x = x + 1;
        }
        y = y + 1;
    }
    grid
}

/// Cleared for the first `n` spawns, and for the first `m` safe cells of
/// spawn `n`.
pub open spec fn protected_upto(
    spawns: Seq<(u8, u8)>,
    w: u8,
    h: u8,
    x: int,
    y: int,
    n: int,
    m: int,
) -> bool {
    &&& 0 <= x < w
    &&& 0 <= y < h
    &&& !spec_is_structural(x, y, w as int, h as int)
    &&& exists|s: int, k: int|
        0 <= s < spawns.len() && 0 <= k < 3 && (s < n || (s == n && k < m))
            && #[trigger] spec_safe_cells(spawns[s], w, h)[k] == (x as u8, y as u8)
}

/// Clear the safe cells of every spawn, and record which cells were cleared.
fn protect_spawns(grid: &mut TileGrid, spawns: &Vec<(u8, u8)>, w: u8, h: u8) -> (protected: Vec<
    bool,
>)
    requires
        1 <= w,
        1 <= h,
        old(grid).width == w,
        old(grid).height == h,
        old(grid)@.wf(),
        forall|x: int, y: int|
            0 <= x < w && 0 <= y < h ==> #[trigger] old(grid)@.at(x, y) == base_tile(
                x,
                y,
                w as int,
                h as int,
            ),
    ensures
        final(grid).width == w,
        final(grid).height == h,
        final(grid)@.wf(),
        forall|x: int, y: int|
            0 <= x < w && 0 <= y < h ==> #[trigger] final(grid)@.at(x, y) == base_tile(
                x,
                y,
                w as int,
                h as int,
            ),
        protected@.len() == w * h,
        forall|x: int, y: int|
            0 <= x < w && 0 <= y < h ==> #[trigger] protected@[y * w + x] == spec_protected(
                spawns@,
                w,
                h,
                x,
                y,
            ),
{
    proof {
        lemma_mul_u8(w, h);
    }
    let n: usize = w as usize * h as usize;
    let mut protected: Vec<bool> = Vec::new();
    while protected.len() < n
        invariant
            n == w * h,
            protected@.len() <= n,
            forall|i: int| 0 <= i < protected@.len() ==> !#[trigger] protected@[i],
        decreases n - protected@.len(),
    {
        protected.push(false);
    }
    assert forall|x: int, y: int| 0 <= x < w && 0 <= y < h implies #[trigger] protected@[y * w + x]
        == protected_upto(spawns@, w, h, x, y, 0, 0) by {
        lemma_cell_index(w as int, h as int, x, y, x, y);
    }
    let mut s: usize = 0;
    while s < spawns.len()
        invariant
            1 <= w,
            1 <= h,
            s <= spawns@.len(),
            grid.width == w,
            grid.height == h,
            grid@.wf(),
            forall|x: int, y: int|
                0 <= x < w && 0 <= y < h ==> #[trigger] grid@.at(x, y) == base_tile(
                    x,
                    y,
                    w as int,
                    h as int,
                ),
            protected@.len() == w * h,
            forall|x: int, y: int|
                0 <= x < w && 0 <= y < h ==> #[trigger] protected@[y * w + x] == protected_upto(
                    spawns@,
                    w,
                    h,
                    x,
                    y,
                    s as int,
                    0,
                ),
        decreases spawns@.len() - s,
    {
        let cells = safe_cells(spawns[s], w, h);
        let mut k: usize = 0;
        while k < 3
            invariant
                1 <= w,
                1 <= h,
                s < spawns@.len(),
                k <= 3,
                cells@ == spec_safe_cells(spawns@[s as int], w, h),
                grid.width == w,
                grid.height == h,
                grid@.wf(),
                forall|x: int, y: int|
                    0 <= x < w && 0 <= y < h ==> #[trigger] grid@.at(x, y) == base_tile(
                        x,
                        y,
                        w as int,
                        h as int,
                    ),
                protected@.len() == w * h,
                forall|x: int, y: int|
                    0 <= x < w && 0 <= y < h ==> #[trigger] protected@[y * w + x]
                        == protected_upto(spawns@, w, h, x, y, s as int, k as int),
            decreases 3 - k,
        {
            let (sx, sy) = cells[k];
            if grid.in_bounds(sx as i32, sy as i32) && !is_structural(sx, sy, w, h) {
                proof {
                    lemma_cell_index(w as int, h as int, sx as int, sy as int, sx as int, sy as int);
                    lemma_mul_u8(sy, w);
                }
                let i = sy as usize * w as usize + sx as usize;
                protected.set(i, true);
                grid.set(sx, sy, Tile::Empty);
                proof {
                    assert forall|x: int, y: int| 0 <= x < w && 0 <= y < h implies #[trigger] protected@[y
                        * w + x] == protected_upto(spawns@, w, h, x, y, s as int, k + 1) by {
                        lemma_cell_index(w as int, h as int, x, y, sx as int, sy as int);
                        if x == sx && y == sy {
                            assert(spec_safe_cells(spawns@[s as int], w, h)[k as int] == (
                                x as u8,
                                y as u8,
                            ));
                        }
                    }
                }
            } else {
                proof {
                    assert forall|x: int, y: int| 0 <= x < w && 0 <= y < h implies #[trigger] protected@[y
                        * w + x] == protected_upto(spawns@, w, h, x, y, s as int, k + 1) by {
                        if protected_upto(spawns@, w, h, x, y, s as int, k + 1) {
                            let (s2, k2): (int, int) = choose|s2: int, k2: int|
                                0 <= s2 < spawns@.len() && 0 <= k2 < 3 && (s2 < s || (s2 == s && k2
                                    < k + 1)) && #[trigger] spec_safe_cells(spawns@[s2], w, h)[k2]
                                    == (x as u8, y as u8);
                            if s2 == s && k2 == k {
                                assert(x as u8 == sx && y as u8 == sy);
                                assert(false);
                            }
                        }
                    }
                }
            }
            k = k + 1;
        }
        proof {
            assert forall|x: int, y: int| 0 <= x < w && 0 <= y < h implies #[trigger] protected@[y * w
                + x] == protected_upto(spawns@, w, h, x, y, s + 1, 0) by {
                if protected_upto(spawns@, w, h, x, y, s as int, 3) {
                    let (s2, k2): (int, int) = choose|s2: int, k2: int|
                        0 <= s2 < spawns@.len() && 0 <= k2 < 3 && (s2 < s || (s2 == s && k2 < 3))
                            && #[trigger] spec_safe_cells(spawns@[s2], w, h)[k2] == (x as u8, y as u8);
                    assert(spec_safe_cells(spawns@[s2], w, h)[k2] == (x as u8, y as u8));
                }
                if protected_upto(spawns@, w, h, x, y, s + 1, 0) {
                    let (s2, k2): (int, int) = choose|s2: int, k2: int|
                        0 <= s2 < spawns@.len() && 0 <= k2 < 3 && (s2 < s + 1 || (s2 == s + 1 && k2
                            < 0)) && #[trigger] spec_safe_cells(spawns@[s2], w, h)[k2] == (
                            x as u8,
                            y as u8,
                        );
                    assert(spec_safe_cells(spawns@[s2], w, h)[k2] == (x as u8, y as u8));
                }
            }
        }
        s = s + 1;
    }
    proof {
        assert forall|x: int, y: int| 0 <= x < w && 0 <= y < h implies #[trigger] protected@[y * w + x]
            == spec_protected(spawns@, w, h, x, y) by {
            if protected_upto(spawns@, w, h, x, y, s as int, 0) {
                let (s2, k2): (int, int) = choose|s2: int, k2: int|
                    0 <= s2 < spawns@.len() && 0 <= k2 < 3 && (s2 < s || (s2 == s && k2 < 0))
                        && #[trigger] spec_safe_cells(spawns@[s2], w, h)[k2] == (x as u8, y as u8);
                assert(spec_safe_cells(spawns@[s2], w, h)[k2] == (x as u8, y as u8));
            }
            if spec_protected(spawns@, w, h, x, y) {
                let (s2, k2): (int, int) = choose|s2: int, k2: int|
                    0 <= s2 < spawns@.len() && 0 <= k2 < 3 && #[trigger] spec_safe_cells(
                        spawns@[s2],
                        w,
                        h,
                    )[k2] == (x as u8, y as u8);
                assert(spec_safe_cells(spawns@[s2], w, h)[k2] == (x as u8, y as u8));
            }
        }
    }
    protected
}

/// The tile a generated board holds at an in-bounds cell, given the outcome
/// `soft` of each symmetry class's roll, keyed by the class representative.
pub open spec fn rolled_tile(
    sym: Symmetry,
    w: u8,
    h: u8,
    spawns: Seq<(u8, u8)>,
    soft: spec_fn(int, int) -> bool,
    x: int,
    y: int,
) -> Tile {
    let r = rep(sym, w as int, h as int, x, y);
    if spec_is_structural(x, y, w as int, h as int) {
        Tile::Solid
    } else if spec_protected(spawns, w, h, x, y) {
        Tile::Empty
    } else if soft(r.0, r.1) {
        Tile::Soft
    } else {
        Tile::Empty
    }
}

/// `map` is a board of the normalized size with the spawn cells for
/// `players`, and each of its cells holds what the class rolls `soft` give it.
pub open spec fn generated_with(
    map: GeneratedMap,
    width: u8,
    height: u8,
    sym: Symmetry,
    players: u8,
    soft: spec_fn(int, int) -> bool,
) -> bool {
    let w = spec_normalize(width);
    let h = spec_normalize(height);
    &&& map.grid.width == w
    &&& map.grid.height == h
    &&& map.grid@.wf()
    &&& map.spawns@ == spec_spawn_cells(w, h, players)
    &&& forall|x: int, y: int|
        0 <= x < w && 0 <= y < h ==> #[trigger] map.grid@.at(x, y) == rolled_tile(
            sym,
            w,
            h,
            map.spawns@,
            soft,
            x,
            y,
        )
}

/// The cells sharing a roll with a representative are exactly the cells whose
/// representative it is.
proof fn lemma_class_members(sym: Symmetry, w: u8, h: u8, rx: u8, ry: u8)
    requires
        1 <= w,
        1 <= h,
        rx < roll_range(sym, w, h).0,
        ry < roll_range(sym, w, h).1,
    ensures
        forall|c: (u8, u8)| #[trigger]
            mirror_set(sym, w, h, rx, ry).contains(c) ==> c.0 < w && c.1 < h && rep(
                sym,
                w as int,
                h as int,
                c.0 as int,
                c.1 as int,
            ) == (rx as int, ry as int),
        forall|x: int, y: int|
            0 <= x < w && 0 <= y < h && #[trigger] rep(sym, w as int, h as int, x, y) == (
                rx as int,
                ry as int,
            ) ==> mirror_set(sym, w, h, rx, ry).contains((x as u8, y as u8)),
{
}

/// Roll-true for the class of `(rx, ry)`: every eligible cell of it turns
/// soft.
fn paint_class(
    grid: &mut TileGrid,
    protected: &Vec<bool>,
    Ghost(spawns): Ghost<Seq<(u8, u8)>>,
    rx: u8,
    ry: u8,
    w: u8,
    h: u8,
    sym: Symmetry,
    Ghost(soft): Ghost<spec_fn(int, int) -> bool>,
)
    requires
        1 <= w,
        1 <= h,
        rx < roll_range(sym, w, h).0,
        ry < roll_range(sym, w, h).1,
        old(grid).width == w,
        old(grid).height == h,
        old(grid)@.wf(),
        protected@.len() == w * h,
        forall|x: int, y: int|
            0 <= x < w && 0 <= y < h ==> #[trigger] protected@[y * w + x] == spec_protected(
                spawns,
                w,
                h,
                x,
                y,
            ),
        forall|x: int, y: int|
            0 <= x < w && 0 <= y < h ==> #[trigger] old(grid)@.at(x, y) == rolled_tile(
                sym,
                w,
                h,
                spawns,
                soft,
                x,
                y,
            ),
    ensures
        final(grid).width == w,
        final(grid).height == h,
        final(grid)@.wf(),
        forall|x: int, y: int|
            0 <= x < w && 0 <= y < h ==> #[trigger] final(grid)@.at(x, y) == rolled_tile(
                sym,
                w,
                h,
                spawns,
                |a: int, b: int| (a == rx && b == ry) || soft(a, b),
                x,
                y,
            ),
{
    let out = mirrors(rx, ry, w, h, sym);
    proof {
        lemma_class_members(sym, w, h, rx, ry);
    }
    let mut j: usize = 0;
    while j < out.len()
        invariant
            1 <= w,
            1 <= h,
            j <= out@.len(),
            out@.to_set() == mirror_set(sym, w, h, rx, ry),
            forall|c: (u8, u8)| #[trigger]
                mirror_set(sym, w, h, rx, ry).contains(c) ==> c.0 < w && c.1 < h && rep(
                    sym,
                    w as int,
                    h as int,
                    c.0 as int,
                    c.1 as int,
                ) == (rx as int, ry as int),
            grid.width == w,
            grid.height == h,
            grid@.wf(),
            protected@.len() == w * h,
            forall|x: int, y: int|
                0 <= x < w && 0 <= y < h ==> #[trigger] protected@[y * w + x] == spec_protected(
                    spawns,
                    w,
                    h,
                    x,
                    y,
                ),
            forall|x: int, y: int|
                0 <= x < w && 0 <= y < h ==> #[trigger] grid@.at(x, y) == if rep(
                    sym,
                    w as int,
                    h as int,
                    x,
                    y,
                ) == (rx as int, ry as int) && !spec_is_structural(x, y, w as int, h as int)
                    && !spec_protected(spawns, w, h, x, y) && out@.take(j as int).contains(
                    (x as u8, y as u8),
                ) {
                    Tile::Soft
                } else {
                    rolled_tile(sym, w, h, spawns, soft, x, y)
                },
        decreases out@.len() - j,
    {
        let (tx, ty) = out[j];
        proof {
            assert(out@.to_set().contains(out@[j as int]));
            lemma_cell_index(w as int, h as int, tx as int, ty as int, tx as int, ty as int);
            lemma_mul_u8(ty, w);
        }
        let idx = ty as usize * w as usize + tx as usize;
        if !is_structural(tx, ty, w, h) && !protected[idx] {
            grid.set(tx, ty, Tile::Soft);
        }
        proof {
            assert forall|x: int, y: int| 0 <= x < w && 0 <= y < h implies #[trigger] out@.take(
                j + 1,
            ).contains((x as u8, y as u8)) == (out@.take(j as int).contains((x as u8, y as u8)) || (
            x == tx && y == ty)) by {
                let e = (x as u8, y as u8);
                let before = out@.take(j as int);
                let after = out@.take(j + 1);
                assert(after =~= before.push(out@[j as int]));
                if after.contains(e) {
                    let i: int = choose|i: int| 0 <= i < after.len() && after[i] == e;
                    if i < j {
                        assert(before[i] == e);
                    }
                }
                if before.contains(e) {
                    let i: int = choose|i: int| 0 <= i < before.len() && before[i] == e;
                    assert(after[i] == e);
                }
                if x == tx && y == ty {
                    assert(after[j as int] == e);
                }
            }
        }
        j = j + 1;
    }
    proof {
        assert(out@.take(j as int) =~= out@);
        assert forall|x: int, y: int| 0 <= x < w && 0 <= y < h && #[trigger] rep(
            sym,
            w as int,
            h as int,
            x,
            y,
        ) == (rx as int, ry as int) implies out@.contains((x as u8, y as u8)) by {
            assert(out@.to_set().contains((x as u8, y as u8)));
        }
    }
}

/// The numerator a density rolls with: never above the denominator.
pub open spec fn density_numerator(d: Density) -> u32 {
    if d.numerator < d.denominator {
        d.numerator
    } else {
        d.denominator
    }
}

/// The generator's state after `k` density rolls from state `s`.
pub open spec fn pcg_after(s: int, n: u32, d: u32, k: nat) -> int
    decreases k,
{
    if k == 0 {
        s
    } else {
        pcg_ratio(pcg_after(s, n, d, (k - 1) as nat), n, d).1
    }
}

/// The `k`th density roll from state `s`, counting from 0.
pub open spec fn pcg_roll(s: int, n: u32, d: u32, k: nat) -> bool {
    pcg_ratio(pcg_after(s, n, d, k), n, d).0
}

/// Which class representatives get a soft block: the roll-range cells are
/// rolled row by row, each from the stream `seed` starts.
pub open spec fn map_rolls(cfg: MapConfig, seed: u64) -> spec_fn(int, int) -> bool {
    let w = spec_normalize(cfg.width);
    let h = spec_normalize(cfg.height);
    let xr = roll_range(cfg.symmetry, w, h).0;
    let yr = roll_range(cfg.symmetry, w, h).1;
    let n = density_numerator(cfg.soft_block_density);
    let d = cfg.soft_block_density.denominator;
    |a: int, b: int| 0 <= a < xr && 0 <= b < yr && pcg_roll(pcg_seed(seed), n, d, (b * xr + a) as nat)
}

/// Generate a board from a width/height pair, a seed and a player count.
///
/// The fixed geometry is the same for every seed; each symmetry class of the
/// remaining cells is rolled once with the configured density, and a true roll
/// turns every cell of the class that is neither fixed geometry nor a
/// spawn's safe cell into a soft block.
pub fn generate(cfg: &MapConfig, seed: u64, players: u8) -> (map: GeneratedMap)
    requires
        0 < cfg.soft_block_density.denominator,
    ensures
        generated_with(map, cfg.width, cfg.height, cfg.symmetry, players, map_rolls(*cfg, seed)),
        cfg.soft_block_density.numerator == 0 ==> forall|a: int, b: int|
            !#[trigger] map_rolls(*cfg, seed)(a, b),
        cfg.soft_block_density.numerator >= cfg.soft_block_density.denominator ==> forall|
            a: int,
            b: int,
        |
            0 <= a < roll_range(
                cfg.symmetry,
                spec_normalize(cfg.width),
                spec_normalize(cfg.height),
            ).0 && 0 <= b < roll_range(
                cfg.symmetry,
                spec_normalize(cfg.width),
                spec_normalize(cfg.height),
            ).1 ==> #[trigger] map_rolls(*cfg, seed)(a, b),
{
    let w = normalize_dimension(cfg.width);
    let h = normalize_dimension(cfg.height);
    let mut grid = lattice(w, h);
    let spawns = spawn_cells(w, h, players);
    let protected = protect_spawns(&mut grid, &spawns, w, h);
    let mut rng = seeded(seed);
    let den = cfg.soft_block_density.denominator;
    let num = if cfg.soft_block_density.numerator < den {
        cfg.soft_block_density.numerator
    } else {
        den
    };
    let ghost s0 = rng@;
    let ghost mut soft: spec_fn(int, int) -> bool = |a: int, b: int| false;
    let sym = cfg.symmetry;
    let (x_range, y_range): (u8, u8) = match sym {
        Symmetry::Independent => (w, h),
        Symmetry::MirrorX => ((w + 1) / 2, h),
        Symmetry::Quad => ((w + 1) / 2, (h + 1) / 2),
    };
    let ghost xr = x_range as int;
    let mut y: u8 = 0;
    while y < y_range
        invariant
            sym == cfg.symmetry,
            MIN_DIMENSION <= w <= MAX_DIMENSION,
            MIN_DIMENSION <= h <= MAX_DIMENSION,
            (x_range as int, y_range as int) == roll_range(sym, w, h),
            xr == x_range,
            0 < den,
            num <= den,
            y <= y_range,
            rng@ == pcg_after(s0, num, den, (y * xr) as nat),
            forall|a: int, b: int|
                #[trigger] soft(a, b) == (0 <= a < x_range && 0 <= b < y && pcg_roll(
                    s0,
                    num,
                    den,
                    (b * xr + a) as nat,
                )),
            forall|k: int|
                0 <= k < y * xr ==> (num == 0 ==> !#[trigger] pcg_roll(s0, num, den, k as nat)) && (
                num == den ==> pcg_roll(s0, num, den, k as nat)),
            grid.width == w,
            grid.height == h,
            grid@.wf(),
            protected@.len() == w * h,
            forall|x: int, y: int|
                0 <= x < w && 0 <= y < h ==> #[trigger] protected@[y * w + x] == spec_protected(
                    spawns@,
                    w,
                    h,
                    x,
                    y,
                ),
            forall|x: int, y: int|
                0 <= x < w && 0 <= y < h ==> #[trigger] grid@.at(x, y) == rolled_tile(
                    sym,
                    w,
                    h,
                    spawns@,
                    soft,
                    x,
                    y,
                ),
        decreases y_range - y,
    {
        let mut x: u8 = 0;
        while x < x_range
            invariant
                sym == cfg.symmetry,
                MIN_DIMENSION <= w <= MAX_DIMENSION,
                MIN_DIMENSION <= h <= MAX_DIMENSION,
                (x_range as int, y_range as int) == roll_range(sym, w, h),
                xr == x_range,
                0 < den,
                num <= den,
                y < y_range,
                x <= x_range,
                rng@ == pcg_after(s0, num, den, (y * xr + x) as nat),
                forall|a: int, b: int|
                    #[trigger] soft(a, b) == (0 <= a < x_range && 0 <= b <= y && (b < y || a < x)
                        && pcg_roll(s0, num, den, (b * xr + a) as nat)),
                forall|k: int|
                    0 <= k < y * xr + x ==> (num == 0 ==> !#[trigger] pcg_roll(s0, num, den, k as nat))
                        && (num == den ==> pcg_roll(s0, num, den, k as nat)),
                grid.width == w,
                grid.height == h,
                grid@.wf(),
                protected@.len() == w * h,
                forall|x: int, y: int|
                    0 <= x < w && 0 <= y < h ==> #[trigger] protected@[y * w + x]
                        == spec_protected(spawns@, w, h, x, y),
                forall|x: int, y: int|
                    0 <= x < w && 0 <= y < h ==> #[trigger] grid@.at(x, y) == rolled_tile(
                        sym,
                        w,
                        h,
                        spawns@,
                        soft,
                        x,
                        y,
                    ),
            decreases x_range - x,
        {
            let ghost k = (y * xr + x) as nat;
            let roll = roll_ratio(&mut rng, num, den);
            assert(roll == pcg_roll(s0, num, den, k));
            assert(rng@ == pcg_after(s0, num, den, (k + 1) as nat));
            if roll {
                paint_class(&mut grid, &protected, Ghost(spawns@), x, y, w, h, sym, Ghost(soft));
                proof {
                    let prev = soft;
                    soft = |a: int, b: int| (a == x && b == y) || prev(a, b);
                }
            }
            proof {
                let prev = soft;
                assert forall|a: int, b: int| #[trigger] soft(a, b) == (0 <= a < x_range && 0 <= b
                    <= y && (b < y || a < x + 1) && pcg_roll(s0, num, den, (b * xr + a) as nat)) by {
                }
                assert forall|kk: int| 0 <= kk < y * xr + x + 1 implies (num == 0 ==> !#[trigger] pcg_roll(
                    s0,
                    num,
                    den,
                    kk as nat,
                )) && (num == den ==> pcg_roll(s0, num, den, kk as nat)) by {
                    if kk == y * xr + x {
                        assert(kk as nat == k);
                    }
                }
            }
            x = x + 1;
        }
        proof {
            assert((y + 1) * xr == y * xr + xr) by (nonlinear_arith);
            assert forall|a: int, b: int| #[trigger] soft(a, b) == (0 <= a < x_range && 0 <= b < y
                + 1 && pcg_roll(s0, num, den, (b * xr + a) as nat)) by {}
        }
        y = y + 1;
    }
    let map = GeneratedMap { grid, spawns };
    proof {
        let target = map_rolls(*cfg, seed);
        assert(num == density_numerator(cfg.soft_block_density));
        assert forall|a: int, b: int| #[trigger] soft(a, b) == target(a, b) by {}
        assert(soft =~= target);
        assert forall|a: int, b: int| 0 <= a < x_range && 0 <= b < y_range implies (num == 0
            ==> !#[trigger] target(a, b)) && (num == den ==> target(a, b)) by {
            assert(b * xr + a < y_range * xr) by (nonlinear_arith)
                requires
                    0 <= b < y_range,
                    0 <= a < xr,
            ;
            assert(0 <= b * xr + a) by (nonlinear_arith)
                requires
                    0 <= b,
                    0 <= a,
                    0 <= xr,
            ;
        }
    }
    assert(generated_with(map, cfg.width, cfg.height, cfg.symmetry, players, soft));
    map
}

/// Why a board is unfit to play on.
#[derive(Debug, Clone, Copy, PartialEq, Eq, Structural)]
pub enum MapError {
    SpawnOnSolid { player: u8, x: u8, y: u8 },
    SpawnUnreachable { player: u8 },
    /// A spawn with no adjacent walkable cell is a death sentence on tick one.
    SpawnHasNoEscape { player: u8 },
}

/// Stepping in direction `i` from `(x, y)` lands on an empty cell.
pub open spec fn escape_toward(g: GridView, x: int, y: int, i: int) -> bool {
    let n = neighbour(x, y, i);
    g.get_or_solid(n.0, n.1) == Tile::Empty
}

/// Some neighbour of `(x, y)` is empty.
pub open spec fn has_escape(g: GridView, x: int, y: int) -> bool {
    exists|i: int| 0 <= i < 4 && #[trigger] escape_toward(g, x, y, i)
}

/// The first spawn, from index `i` on, that is not empty or has no empty
/// neighbour, with what is wrong with it.
pub open spec fn spawn_fault(g: GridView, spawns: Seq<(u8, u8)>, i: int) -> Option<MapError>
    decreases spawns.len() - i,
{
    if i < 0 || i >= spawns.len() {
        None
    } else {
        let (x, y) = spawns[i];
        if g.at(x as int, y as int) != Tile::Empty {
            Some(MapError::SpawnOnSolid { player: i as u8, x, y })
        } else if !has_escape(g, x as int, y as int) {
            Some(MapError::SpawnHasNoEscape { player: i as u8 })
        } else {
            spawn_fault(g, spawns, i + 1)
        }
    }
}

pub open spec fn cell_of(c: (u8, u8)) -> (int, int) {
    (c.0 as int, c.1 as int)
}

/// The first spawn, from index `i` on, that no walk from the first spawn
/// reaches.
pub open spec fn unreachable_spawn(g: GridView, spawns: Seq<(u8, u8)>, i: int) -> Option<
    MapError,
>
    decreases spawns.len() - i,
{
    if i < 0 || i >= spawns.len() {
        None
    } else if !reachable(g, cell_of(spawns[0]), cell_of(spawns[i])) {
        Some(MapError::SpawnUnreachable { player: i as u8 })
    } else {
        unreachable_spawn(g, spawns, i + 1)
    }
}

/// What `validate` answers for a board and its spawns.
pub open spec fn spec_validate(g: GridView, spawns: Seq<(u8, u8)>) -> Result<(), MapError> {
    match spawn_fault(g, spawns, 0) {
        Some(e) => Err(e),
        None => match unreachable_spawn(g, spawns, 0) {
            Some(e) => Err(e),
            None => Ok(()),
        },
    }
}

/// Does some neighbour of `(x, y)` hold an empty cell?
fn spawn_has_escape(grid: &TileGrid, x: u8, y: u8) -> (b: bool)
    requires
        grid@.wf(),
    ensures
        b == has_escape(grid@, x as int, y as int),
{
    let mut i: usize = 0;
    while i < 4
        invariant
            i <= 4,
            grid@.wf(),
            forall|j: int| 0 <= j < i ==> !#[trigger] escape_toward(grid@, x as int, y as int, j),
        decreases 4 - i,
    {
        let (dx, dy) = Direction::at(i).delta();
        if grid.get_or_solid(x as i32 + dx, y as i32 + dy) == Tile::Empty {
            assert(escape_toward(grid@, x as int, y as int, i as int));
            return true;
        }
        i = i + 1;
    }
    false
}

/// Every cell a walk from `start` reaches, flagged by row-major index.
fn flood(grid: &TileGrid, start: (u8, u8)) -> (seen: Vec<bool>)
    requires
        grid@.wf(),
        grid@.in_bounds(start.0 as int, start.1 as int),
    ensures
        seen@.len() == grid.width * grid.height,
        forall|x: int, y: int|
            0 <= x < grid.width && 0 <= y < grid.height ==> #[trigger] seen@[y * grid.width + x]
                == reachable(grid@, cell_of(start), (x, y)),
{
    let ghost g = grid@;
    let ghost s = cell_of(start);
    let w = grid.width as usize;
    proof {
        lemma_mul_u8(grid.width, grid.height);
    }
    let n: usize = w * grid.height as usize;
    let mut seen: Vec<bool> = Vec::new();
    while seen.len() < n
        invariant
            n == grid.width * grid.height,
            seen@.len() <= n,
            forall|i: int| 0 <= i < seen@.len() ==> !#[trigger] seen@[i],
        decreases n - seen@.len(),
    {
        seen.push(false);
    }
    proof {
        lemma_cell_index(
            w as int,
            grid.height as int,
            start.0 as int,
            start.1 as int,
            start.0 as int,
            start.1 as int,
        );
        lemma_mul_u8(start.1, grid.width);
        assert forall|x: int, y: int|
            0 <= x < grid.width && 0 <= y < grid.height && #[trigger] seen@[y * grid.width + x]
                implies reachable(g, s, (x, y)) by {
            lemma_cell_index(w as int, grid.height as int, x, y, x, y);
        }
    }
    let start_idx = start.1 as usize * w + start.0 as usize;
    seen.set(start_idx, true);
    proof {
        lemma_reachable_refl(g, s);
        assert forall|x: int, y: int|
            0 <= x < grid.width && 0 <= y < grid.height && #[trigger] seen@[y * grid.width + x]
                implies reachable(g, s, (x, y)) by {
            lemma_cell_index(w as int, grid.height as int, x, y, s.0, s.1);
        }
    }
    let mut stack: Vec<(u8, u8)> = Vec::new();
    stack.push(start);
    proof {
        assert forall|x: int, y: int, i: int|
            0 <= x < g.width && 0 <= y < g.height && seen@[y * g.width + x] && !stack@.contains(
                (x as u8, y as u8),
            ) && 0 <= i < 4 && open_cell(g, #[trigger] neighbour(x, y, i)) implies seen@[neighbour(
            x,
            y,
            i,
        ).1 * g.width + neighbour(x, y, i).0] by {
            lemma_cell_index(w as int, g.height as int, x, y, s.0, s.1);
            assert(stack@[0] == start);
        }
    }
    while stack.len() > 0
        invariant
            g == grid@,
            g.wf(),
            w == g.width,
            n == g.width * g.height,
            seen@.len() == n,
            g.in_bounds(s.0, s.1),
            s == cell_of(start),
            seen@[s.1 * w + s.0],
            forall|x: int, y: int|
                0 <= x < g.width && 0 <= y < g.height && #[trigger] seen@[y * g.width + x]
                    ==> reachable(g, s, (x, y)),
            forall|k: int|
                0 <= k < stack@.len() ==> g.in_bounds(
                    (#[trigger] stack@[k]).0 as int,
                    stack@[k].1 as int,
                ) && seen@[stack@[k].1 * g.width + stack@[k].0],
            forall|x: int, y: int, i: int|
                0 <= x < g.width && 0 <= y < g.height && seen@[y * g.width + x]
                    && !stack@.contains((x as u8, y as u8)) && 0 <= i < 4 && open_cell(
                    g,
                    #[trigger] neighbour(x, y, i),
                ) ==> seen@[neighbour(x, y, i).1 * g.width + neighbour(x, y, i).0],
        decreases 4 * count_false(seen@) + stack@.len(),
    {
        let ghost measure = 4 * count_false(seen@) + stack@.len();
        let ghost old_stack = stack@;
        let (x, y) = stack.pop().unwrap();
        let ghost popped = stack@;
        proof {
            assert(old_stack =~= popped.push((x, y)));
            assert(old_stack[popped.len() as int] == (x, y));
            lemma_cell_index(w as int, g.height as int, x as int, y as int, x as int, y as int);
            lemma_cell_index(w as int, g.height as int, s.0, s.1, s.0, s.1);
            assert forall|cx: int, cy: int|
                0 <= cx < g.width && 0 <= cy < g.height && !popped.contains((cx as u8, cy as u8))
                    && !(cx == x && cy == y) implies !#[trigger] old_stack.contains(
                (cx as u8, cy as u8),
            ) by {
                if old_stack.contains((cx as u8, cy as u8)) {
                    let k: int = choose|k: int|
                        0 <= k < old_stack.len() && old_stack[k] == (cx as u8, cy as u8);
                    if k < popped.len() {
                        assert(popped[k] == old_stack[k]);
                    }
                }
            }
        }
        let mut i: usize = 0;
        while i < 4
            invariant
                g == grid@,
                g.wf(),
                w == g.width,
                n == g.width * g.height,
                seen@.len() == n,
                g.in_bounds(x as int, y as int),
                i <= 4,
                0 <= y * g.width + x < n,
                0 <= s.1 * w + s.0 < n,
                seen@[y * g.width + x],
                seen@[s.1 * w + s.0],
                4 * count_false(seen@) + stack@.len() < measure,
                stack@.len() >= popped.len(),
                stack@.subrange(0, popped.len() as int) == popped,
                forall|x: int, y: int|
                    0 <= x < g.width && 0 <= y < g.height && #[trigger] seen@[y * g.width + x]
                        ==> reachable(g, s, (x, y)),
                forall|k: int|
                    0 <= k < stack@.len() ==> g.in_bounds(
                        (#[trigger] stack@[k]).0 as int,
                        stack@[k].1 as int,
                    ) && seen@[stack@[k].1 * g.width + stack@[k].0],
                forall|j: int|
                    0 <= j < i && open_cell(g, #[trigger] neighbour(x as int, y as int, j))
                        ==> seen@[neighbour(x as int, y as int, j).1 * g.width + neighbour(
                        x as int,
                        y as int,
                        j,
                    ).0],
                forall|cx: int, cy: int, j: int|
                    0 <= cx < g.width && 0 <= cy < g.height && seen@[cy * g.width + cx]
                        && !stack@.contains((cx as u8, cy as u8)) && !(cx == x && cy == y) && 0
                        <= j < 4 && open_cell(g, #[trigger] neighbour(cx, cy, j)) ==> seen@[neighbour(
                        cx,
                        cy,
                        j,
                    ).1 * g.width + neighbour(cx, cy, j).0],
            decreases 4 - i,
        {
            let ghost at_start = seen@;
            let ghost stack_start = stack@;
            let (dx, dy) = Direction::at(i).delta();
            let nx = x as i32 + dx;
            let ny = y as i32 + dy;
            let ghost nb = neighbour(x as int, y as int, i as int);
            assert(nb == (nx as int, ny as int));
            if grid.get_or_solid(nx, ny) != Tile::Solid {
                proof {
                    lemma_cell_index(w as int, g.height as int, nx as int, ny as int, nx as int, ny as int);
                    lemma_mul_u8(ny as u8, grid.width);
                }
                let idx = ny as usize * w + nx as usize;
                if !seen[idx] {
                    proof {
                        lemma_count_false_set(seen@, idx as int);
                        lemma_neighbours((x as int, y as int), nb);
                        lemma_reachable_step(g, s, (x as int, y as int), nb);
                    }
                    seen.set(idx, true);
                    stack.push((nx as u8, ny as u8));
                    proof {
                        assert(stack@.subrange(0, popped.len() as int) =~= popped);
                        assert forall|cx: int, cy: int|
                            0 <= cx < g.width && 0 <= cy < g.height && #[trigger] seen@[cy
                                * g.width + cx] implies reachable(g, s, (cx, cy)) by {
                            lemma_cell_index(w as int, g.height as int, cx, cy, nx as int, ny as int);
                            if !(cx == nx && cy == ny) {
                                assert(at_start[cy * g.width + cx]);
                            }
                        }
                        assert forall|k: int| 0 <= k < stack@.len() implies g.in_bounds(
                            (#[trigger] stack@[k]).0 as int,
                            stack@[k].1 as int,
                        ) && seen@[stack@[k].1 * g.width + stack@[k].0] by {
                            let c = stack@[k];
                            lemma_cell_index(w as int, g.height as int, c.0 as int, c.1 as int, c.0 as int, c.1 as int);
                        }
                        assert forall|cx: int, cy: int, j: int|
                            0 <= cx < g.width && 0 <= cy < g.height && seen@[cy * g.width + cx]
                                && !stack@.contains((cx as u8, cy as u8)) && !(cx == x && cy == y)
                                && 0 <= j < 4 && open_cell(g, #[trigger] neighbour(cx, cy, j))
                                implies seen@[neighbour(cx, cy, j).1 * g.width + neighbour(
                            cx,
                            cy,
                            j,
                        ).0] by {
                            let c = neighbour(cx, cy, j);
                            lemma_cell_index(w as int, g.height as int, c.0, c.1, c.0, c.1);
                            lemma_cell_index(w as int, g.height as int, cx, cy, nx as int, ny as int);
                            assert(stack@.last() == (nx as u8, ny as u8));
                            if stack_start.contains((cx as u8, cy as u8)) {
                                let k: int = choose|k: int|
                                    0 <= k < stack_start.len() && stack_start[k] == (
                                        cx as u8,
                                        cy as u8,
                                    );
                                assert(stack@[k] == stack_start[k]);
                            }
                        }
                    }
                }
            }
            proof {
                assert forall|k: int| 0 <= k < n && at_start[k] implies seen@[k] by {}
                assert forall|j: int|
                    0 <= j < i + 1 && open_cell(g, #[trigger] neighbour(x as int, y as int, j))
                        implies seen@[neighbour(x as int, y as int, j).1 * g.width + neighbour(
                    x as int,
                    y as int,
                    j,
                ).0] by {
                    let c = neighbour(x as int, y as int, j);
                    lemma_cell_index(w as int, g.height as int, c.0, c.1, c.0, c.1);
                }
            }
            i = i + 1;
        }
        proof {
            assert forall|cx: int, cy: int, j: int|
                0 <= cx < g.width && 0 <= cy < g.height && seen@[cy * g.width + cx]
                    && !stack@.contains((cx as u8, cy as u8)) && 0 <= j < 4 && open_cell(
                    g,
                    #[trigger] neighbour(cx, cy, j),
                ) implies seen@[neighbour(cx, cy, j).1 * g.width + neighbour(cx, cy, j).0] by {

            }
        }
    }
    proof {
        assert forall|x: int, y: int|
            0 <= x < g.width && 0 <= y < g.height implies #[trigger] seen@[y * g.width + x]
                == reachable(g, s, (x, y)) by {
            if reachable(g, s, (x, y)) {
                let inside = |c: (int, int)|
                    g.in_bounds(c.0, c.1) && seen@[c.1 * g.width + c.0];
                assert forall|c: (int, int), i: int|
                    inside(c) && 0 <= i < 4 && open_cell(g, #[trigger] neighbour(c.0, c.1, i))
                        implies inside(neighbour(c.0, c.1, i)) by {
                    assert(c == (c.0 as u8 as int, c.1 as u8 as int));
                }
                lemma_closed_holds_reachable(g, s, inside, (x, y));
            }
        }
    }
    seen
}

/// Check the invariants a match depends on: every spawn empty with an empty
/// neighbour, and every spawn reachable from the first one. Reachability
/// ignores soft blocks: they delay a player rather than separate them.
pub fn validate(map: &GeneratedMap) -> (r: Result<(), MapError>)
    requires
        map.grid@.wf(),
        forall|k: int|
            0 <= k < map.spawns@.len() ==> map.grid@.in_bounds(
                (#[trigger] map.spawns@[k]).0 as int,
                map.spawns@[k].1 as int,
            ),
    ensures
        r == spec_validate(map.grid@, map.spawns@),
{
    let grid = &map.grid;
    let spawns = &map.spawns;
    let mut i: usize = 0;
    while i < spawns.len()
        invariant
            grid == &map.grid,
            spawns == &map.spawns,
            i <= spawns@.len(),
            grid@.wf(),
            forall|k: int|
                0 <= k < spawns@.len() ==> grid@.in_bounds(
                    (#[trigger] spawns@[k]).0 as int,
                    spawns@[k].1 as int,
                ),
            spawn_fault(grid@, spawns@, 0) == spawn_fault(grid@, spawns@, i as int),
        decreases spawns@.len() - i,
    {
        let (x, y) = spawns[i];
        assert(grid@.in_bounds(spawns@[i as int].0 as int, spawns@[i as int].1 as int));
        if grid.get(x, y) != Tile::Empty {
            assert(spawn_fault(grid@, spawns@, i as int) == Some(
                MapError::SpawnOnSolid { player: i as u8, x, y },
            ));
            return Err(MapError::SpawnOnSolid { player: i as u8, x, y });
        }
        if !spawn_has_escape(grid, x, y) {
            assert(spawn_fault(grid@, spawns@, i as int) == Some(
                MapError::SpawnHasNoEscape { player: i as u8 },
            ));
            return Err(MapError::SpawnHasNoEscape { player: i as u8 });
        }
        i = i + 1;
    }
    if spawns.len() == 0 {
        return Ok(());
    }
    let start = spawns[0];
    assert(grid@.in_bounds(spawns@[0].0 as int, spawns@[0].1 as int));
    let seen = flood(grid, start);
    let w = grid.width as usize;
    let mut i: usize = 0;
    while i < spawns.len()
        invariant
            grid == &map.grid,
            spawns == &map.spawns,
            spawn_fault(grid@, spawns@, 0) == None::<MapError>,
            i <= spawns@.len(),
            spawns@.len() > 0,
            start == spawns@[0],
            w == grid.width,
            grid@.wf(),
            spawn_fault(grid@, spawns@, 0) == None::<MapError>,
            forall|k: int|
                0 <= k < spawns@.len() ==> grid@.in_bounds(
                    (#[trigger] spawns@[k]).0 as int,
                    spawns@[k].1 as int,
                ),
            seen@.len() == grid.width * grid.height,
            forall|x: int, y: int|
                0 <= x < grid.width && 0 <= y < grid.height ==> #[trigger] seen@[y * grid.width + x]
                    == reachable(grid@, cell_of(start), (x, y)),
            unreachable_spawn(grid@, spawns@, 0) == unreachable_spawn(grid@, spawns@, i as int),
        decreases spawns@.len() - i,
    {
        let (x, y) = spawns[i];
        assert(grid@.in_bounds(spawns@[i as int].0 as int, spawns@[i as int].1 as int));
        proof {
            lemma_cell_index(w as int, grid.height as int, x as int, y as int, x as int, y as int);
            lemma_mul_u8(y, grid.width);
        }
        if !seen[y as usize * w + x as usize] {
            assert(unreachable_spawn(grid@, spawns@, i as int) == Some(
                MapError::SpawnUnreachable { player: i as u8 },
            ));
            return Err(MapError::SpawnUnreachable { player: i as u8 });
        }
        i = i + 1;
    }
    Ok(())
}

/// Normalized dimensions are odd and in range.
pub proof fn lemma_normalize_odd(v: u8)
    ensures
        spec_normalize(v) % 2 == 1,
        MIN_DIMENSION <= spec_normalize(v) <= MAX_DIMENSION,
{
}

/// Cells that share a roll hold the same tile on a generated board, unless
/// one of them is a spawn's safe cell.
pub proof fn lemma_classes_match(
    map: GeneratedMap,
    width: u8,
    height: u8,
    sym: Symmetry,
    players: u8,
    soft: spec_fn(int, int) -> bool,
    x1: int,
    y1: int,
    x2: int,
    y2: int,
)
    requires
        generated_with(map, width, height, sym, players, soft),
        0 <= x1 < map.grid.width,
        0 <= y1 < map.grid.height,
        0 <= x2 < map.grid.width,
        0 <= y2 < map.grid.height,
        rep(sym, map.grid.width as int, map.grid.height as int, x1, y1) == rep(
            sym,
            map.grid.width as int,
            map.grid.height as int,
            x2,
            y2,
        ),
        !spec_protected(map.spawns@, map.grid.width, map.grid.height, x1, y1),
        !spec_protected(map.spawns@, map.grid.width, map.grid.height, x2, y2),
    ensures
        map.grid@.at(x1, y1) == map.grid@.at(x2, y2),
{
    lemma_normalize_odd(width);
    lemma_normalize_odd(height);
    let w = map.grid.width as int;
    let h = map.grid.height as int;
    assert(map.grid@.at(x1, y1) == rolled_tile(sym, map.grid.width, map.grid.height, map.spawns@, soft, x1, y1));
    assert(map.grid@.at(x2, y2) == rolled_tile(sym, map.grid.width, map.grid.height, map.spawns@, soft, x2, y2));
    assert(x2 == x1 || x2 == w - 1 - x1);
    assert(y2 == y1 || y2 == h - 1 - y1);
    assert(spec_is_structural(x1, y1, w, h) == spec_is_structural(x2, y2, w, h));
}

/// Under quad symmetry a generated board reads the same mirrored left to
/// right and top to bottom, wherever neither cell is a spawn's safe cell.
pub proof fn lemma_quad_symmetry(
    map: GeneratedMap,
    width: u8,
    height: u8,
    players: u8,
    soft: spec_fn(int, int) -> bool,
    x: int,
    y: int,
)
    requires
        generated_with(map, width, height, Symmetry::Quad, players, soft),
        0 <= x < map.grid.width,
        0 <= y < map.grid.height,
    ensures
        !spec_protected(map.spawns@, map.grid.width, map.grid.height, x, y) && !spec_protected(
            map.spawns@,
            map.grid.width,
            map.grid.height,
            map.grid.width - 1 - x,
            y,
        ) ==> map.grid@.at(x, y) == map.grid@.at(map.grid.width - 1 - x, y),
        !spec_protected(map.spawns@, map.grid.width, map.grid.height, x, y) && !spec_protected(
            map.spawns@,
            map.grid.width,
            map.grid.height,
            x,
            map.grid.height - 1 - y,
        ) ==> map.grid@.at(x, y) == map.grid@.at(x, map.grid.height - 1 - y),
{
    let w = map.grid.width as int;
    let h = map.grid.height as int;
    if !spec_protected(map.spawns@, map.grid.width, map.grid.height, x, y) && !spec_protected(
        map.spawns@,
        map.grid.width,
        map.grid.height,
        w - 1 - x,
        y,
    ) {
        lemma_classes_match(map, width, height, Symmetry::Quad, players, soft, x, y, w - 1 - x, y);
    }
    if !spec_protected(map.spawns@, map.grid.width, map.grid.height, x, y) && !spec_protected(
        map.spawns@,
        map.grid.width,
        map.grid.height,
        x,
        h - 1 - y,
    ) {
        lemma_classes_match(map, width, height, Symmetry::Quad, players, soft, x, y, x, h - 1 - y);
    }
}

/// Solid exactly on the fixed geometry.
pub open spec fn solid_is_structural(g: GridView) -> bool {
    forall|x: int, y: int|
        g.in_bounds(x, y) ==> (#[trigger] g.at(x, y) == Tile::Solid <==> spec_is_structural(
            x,
            y,
            g.width as int,
            g.height as int,
        ))
}

/// Along the first interior row, every cell is reachable from `(1, 1)`.
proof fn lemma_row_reachable(g: GridView, x: int)
    requires
        solid_is_structural(g),
        g.height >= 3,
        1 <= x <= g.width - 2,
    ensures
        reachable(g, (1, 1), (x, 1)),
    decreases x,
{
    if x == 1 {
        lemma_reachable_refl(g, (1, 1));
    } else {
        lemma_row_reachable(g, x - 1);
        assert(g.at(x, 1) != Tile::Solid);
        lemma_reachable_step(g, (1, 1), (x - 1, 1), (x, 1));
    }
}

/// Down an odd interior column, every cell is reachable from `(1, 1)`.
proof fn lemma_column_reachable(g: GridView, x: int, y: int)
    requires
        solid_is_structural(g),
        1 <= x <= g.width - 2,
        x % 2 == 1,
        1 <= y <= g.height - 2,
    ensures
        reachable(g, (1, 1), (x, y)),
    decreases y,
{
    if y == 1 {
        lemma_row_reachable(g, x);
    } else {
        lemma_column_reachable(g, x, y - 1);
        assert(g.at(x, y) != Tile::Solid);
        lemma_reachable_step(g, (1, 1), (x, y - 1), (x, y));
    }
}

/// Every spawn cell lies on an odd interior row and column.
proof fn lemma_spawn_cell(w: u8, h: u8, players: u8, k: int)
    requires
        MIN_DIMENSION <= w <= MAX_DIMENSION,
        MIN_DIMENSION <= h <= MAX_DIMENSION,
        w % 2 == 1,
        h % 2 == 1,
        0 <= k < spec_spawn_cells(w, h, players).len(),
    ensures
        ({
            let c = spec_spawn_cells(w, h, players)[k];
            &&& 1 <= c.0 <= w - 2
            &&& 1 <= c.1 <= h - 2
            &&& c.0 % 2 == 1
            &&& c.1 % 2 == 1
        }),
{
    assert((w / 2) | 1u8 == if (w / 2) % 2 == 0 {
        (w / 2 + 1) as u8
    } else {
        w / 2
    }) by (bit_vector);
    assert((h / 2) | 1u8 == if (h / 2) % 2 == 0 {
        (h / 2 + 1) as u8
    } else {
        h / 2
    }) by (bit_vector);
}

/// No spawn from index `i` on is faulty on a generated board.
proof fn lemma_no_spawn_fault(
    map: GeneratedMap,
    width: u8,
    height: u8,
    sym: Symmetry,
    players: u8,
    soft: spec_fn(int, int) -> bool,
    i: int,
)
    requires
        generated_with(map, width, height, sym, players, soft),
        0 <= i,
    ensures
        spawn_fault(map.grid@, map.spawns@, i) == None::<MapError>,
    decreases map.spawns@.len() - i,
{
    let g = map.grid@;
    let w = map.grid.width;
    let h = map.grid.height;
    if i < map.spawns@.len() {
        lemma_normalize_odd(width);
        lemma_normalize_odd(height);
        lemma_spawn_cell(w, h, players, i);
        let (x, y) = map.spawns@[i];
        assert(spec_safe_cells(map.spawns@[i], w, h)[0] == (x, y));
        assert(spec_protected(map.spawns@, w, h, x as int, y as int));
        assert(g.at(x as int, y as int) == rolled_tile(sym, w, h, map.spawns@, soft, x as int, y as int));
        let c = spec_safe_cells(map.spawns@[i], w, h)[1];
        assert(spec_protected(map.spawns@, w, h, c.0 as int, c.1 as int));
        assert(g.at(c.0 as int, c.1 as int) == rolled_tile(
            sym,
            w,
            h,
            map.spawns@,
            soft,
            c.0 as int,
            c.1 as int,
        ));
        if x < w / 2 {
            assert(escape_toward(g, x as int, y as int, 3));
        } else {
            assert(escape_toward(g, x as int, y as int, 2));
        }
        lemma_no_spawn_fault(map, width, height, sym, players, soft, i + 1);
    }
}

/// Every spawn from index `i` on is reachable from the first on a generated
/// board.
proof fn lemma_all_spawns_reachable(
    map: GeneratedMap,
    width: u8,
    height: u8,
    sym: Symmetry,
    players: u8,
    soft: spec_fn(int, int) -> bool,
    i: int,
)
    requires
        generated_with(map, width, height, sym, players, soft),
        0 <= i,
    ensures
        unreachable_spawn(map.grid@, map.spawns@, i) == None::<MapError>,
    decreases map.spawns@.len() - i,
{
    let g = map.grid@;
    let w = map.grid.width;
    let h = map.grid.height;
    if i < map.spawns@.len() {
        lemma_normalize_odd(width);
        lemma_normalize_odd(height);
        assert forall|x: int, y: int| g.in_bounds(x, y) implies (#[trigger] g.at(x, y)
            == Tile::Solid <==> spec_is_structural(x, y, w as int, h as int)) by {
            assert(g.at(x, y) == rolled_tile(sym, w, h, map.spawns@, soft, x, y));
        }
        lemma_spawn_cell(w, h, players, i);
        let (x, y) = map.spawns@[i];
        lemma_column_reachable(g, x as int, y as int);
        assert(cell_of(map.spawns@[0]) == (1int, 1int));
        lemma_all_spawns_reachable(map, width, height, sym, players, soft, i + 1);
    }
}

/// Every generated board is fit to play on, whatever its size, density and
/// symmetry: its spawns are on the board, empty, each with an empty
/// neighbour, and all reachable from one another.
pub proof fn lemma_generated_boards_validate(
    map: GeneratedMap,
    width: u8,
    height: u8,
    sym: Symmetry,
    players: u8,
    soft: spec_fn(int, int) -> bool,
)
    requires
        generated_with(map, width, height, sym, players, soft),
    ensures
        forall|k: int|
            0 <= k < map.spawns@.len() ==> map.grid@.in_bounds(
                (#[trigger] map.spawns@[k]).0 as int,
                map.spawns@[k].1 as int,
            ),
        spec_validate(map.grid@, map.spawns@) == Ok::<(), MapError>(()),
{
    lemma_normalize_odd(width);
    lemma_normalize_odd(height);
    assert forall|k: int| 0 <= k < map.spawns@.len() implies map.grid@.in_bounds(
        (#[trigger] map.spawns@[k]).0 as int,
        map.spawns@[k].1 as int,
    ) by {
        lemma_spawn_cell(map.grid.width, map.grid.height, players, k);
    }
    lemma_no_spawn_fault(map, width, height, sym, players, soft, 0);
    lemma_all_spawns_reachable(map, width, height, sym, players, soft, 0);
}

/// The same size, symmetry, player count, density and seed give the same
/// board and the same spawns: generation is a function of its inputs.
pub proof fn lemma_same_seed_same_map(m1: GeneratedMap, m2: GeneratedMap, cfg: MapConfig, seed: u64, players: u8)
    requires
        generated_with(m1, cfg.width, cfg.height, cfg.symmetry, players, map_rolls(cfg, seed)),
        generated_with(m2, cfg.width, cfg.height, cfg.symmetry, players, map_rolls(cfg, seed)),
    ensures
        m1.grid@ == m2.grid@,
        m1.spawns@ == m2.spawns@,
{
    let w = m1.grid.width as int;
    let h = m1.grid.height as int;
    assert forall|i: int| 0 <= i < m1.grid@.cells.len() implies m1.grid@.cells[i] == m2.grid@.cells[i] by {
        vstd::arithmetic::div_mod::lemma_fundamental_div_mod(i, w);
        let x = i % w;
        let y = i / w;
        assert(0 <= x < w);
        assert(0 <= y < h) by (nonlinear_arith)
            requires
                i == w * y + x,
                0 <= x < w,
                0 <= i < w * h,
        ;
        assert(i == y * w + x) by (nonlinear_arith)
            requires
                i == w * (i / w) + i % w,
                x == i % w,
                y == i / w,
        ;
        assert(m1.grid@.at(x, y) == m2.grid@.at(x, y));
    }
    assert(m1.grid@.cells =~= m2.grid@.cells);
}

} // verus!
