//! Walks over a board, and what a flood fill from one cell has to reach.
//!
//! Soft blocks count as open here: they delay a player rather than separate
//! them, so only solid cells (and the outside of the board) block a walk.
use vstd::prelude::*;

use crate::proto::types::{direction_at, spec_delta, GridView, Tile};

verus! {

/// The cell one step from `(x, y)` in the `i`th direction of `Direction::ALL`.
pub open spec fn neighbour(x: int, y: int, i: int) -> (int, int) {
    let d = spec_delta(direction_at(i));
    (x + d.0, y + d.1)
}

/// Not solid, and on the board.
pub open spec fn open_cell(g: GridView, c: (int, int)) -> bool {
    g.get_or_solid(c.0, c.1) != Tile::Solid
}

/// One orthogonal step apart.
pub open spec fn adjacent(a: (int, int), b: (int, int)) -> bool {
    ||| a.0 == b.0 && (a.1 - b.1 == 1 || b.1 - a.1 == 1)
    ||| a.1 == b.1 && (a.0 - b.0 == 1 || b.0 - a.0 == 1)
}

/// Step `i` of the walk `p` goes to an adjacent open cell.
pub open spec fn walk_link(g: GridView, p: Seq<(int, int)>, i: int) -> bool {
    adjacent(p[i], p[i + 1]) && open_cell(g, p[i + 1])
}

/// A non-empty sequence of cells, each step to an adjacent open cell. The
/// first cell itself need not be open.
pub open spec fn is_walk(g: GridView, p: Seq<(int, int)>) -> bool {
    &&& p.len() >= 1
    &&& forall|i: int| 0 <= i < p.len() - 1 ==> #[trigger] walk_link(g, p, i)
}

/// Some walk leads from `from` to `to`.
pub open spec fn reachable(g: GridView, from: (int, int), to: (int, int)) -> bool {
    exists|p: Seq<(int, int)>| #[trigger] is_walk(g, p) && p[0] == from && p.last() == to
}

/// Every cell reaches itself.
pub proof fn lemma_reachable_refl(g: GridView, c: (int, int))
    ensures
        reachable(g, c, c),
{
    let p = seq![c];
    assert(is_walk(g, p));
}

/// A walk to `a` extends by one step to an adjacent open cell.
pub proof fn lemma_reachable_step(g: GridView, from: (int, int), a: (int, int), b: (int, int))
    requires
        reachable(g, from, a),
        adjacent(a, b),
        open_cell(g, b),
    ensures
        reachable(g, from, b),
{
    let p = choose|p: Seq<(int, int)>| #[trigger] is_walk(g, p) && p[0] == from && p.last() == a;
    let q = p.push(b);
    assert forall|i: int| 0 <= i < q.len() - 1 implies #[trigger] walk_link(g, q, i) by {
        if i < p.len() - 1 {
            assert(walk_link(g, p, i));
        }
    }
    assert(is_walk(g, q));
}

/// The neighbours in `Direction::ALL` order are adjacent, and every adjacent
/// cell is one of them.
pub proof fn lemma_neighbours(a: (int, int), b: (int, int))
    ensures
        forall|i: int| 0 <= i < 4 ==> adjacent(a, #[trigger] neighbour(a.0, a.1, i)),
        adjacent(a, b) ==> exists|i: int| 0 <= i < 4 && #[trigger] neighbour(a.0, a.1, i) == b,
{
    if adjacent(a, b) {
        if b.1 == a.1 + 1 {
            assert(neighbour(a.0, a.1, 0) == b);
        } else if b.1 == a.1 - 1 {
            assert(neighbour(a.0, a.1, 1) == b);
        } else if b.0 == a.0 - 1 {
            assert(neighbour(a.0, a.1, 2) == b);
        } else {
            assert(neighbour(a.0, a.1, 3) == b);
        }
    }
}

/// Every cell of a walk that starts inside a set closed under stepping to
/// open neighbours is inside it.
proof fn lemma_walk_stays_inside(
    g: GridView,
    p: Seq<(int, int)>,
    inside: spec_fn((int, int)) -> bool,
    k: int,
)
    requires
        is_walk(g, p),
        inside(p[0]),
        forall|c: (int, int), i: int|
            inside(c) && 0 <= i < 4 && open_cell(g, #[trigger] neighbour(c.0, c.1, i)) ==> inside(
                neighbour(c.0, c.1, i),
            ),
        0 <= k < p.len(),
    ensures
        inside(p[k]),
    decreases k,
{
    if k > 0 {
        lemma_walk_stays_inside(g, p, inside, k - 1);
        assert(walk_link(g, p, k - 1));
        lemma_neighbours(p[k - 1], p[k]);
        let i: int = choose|i: int| 0 <= i < 4 && #[trigger] neighbour(p[k - 1].0, p[k - 1].1, i) == p[k];
        assert(inside(neighbour(p[k - 1].0, p[k - 1].1, i)));
    }
}

/// A set of cells that holds `start` and, with each cell, every open
/// neighbour of it, holds every cell a walk from `start` ends on.
pub proof fn lemma_closed_holds_reachable(
    g: GridView,
    start: (int, int),
    inside: spec_fn((int, int)) -> bool,
    to: (int, int),
)
    requires
        inside(start),
        forall|c: (int, int), i: int|
            inside(c) && 0 <= i < 4 && open_cell(g, #[trigger] neighbour(c.0, c.1, i)) ==> inside(
                neighbour(c.0, c.1, i),
            ),
        reachable(g, start, to),
    ensures
        inside(to),
{
    let p = choose|p: Seq<(int, int)>| #[trigger] is_walk(g, p) && p[0] == start && p.last() == to;
    lemma_walk_stays_inside(g, p, inside, p.len() - 1);
}

/// How many entries of `s` are false.
pub open spec fn count_false(s: Seq<bool>) -> nat
    decreases s.len(),
{
    if s.len() == 0 {
        0
    } else {
        count_false(s.drop_last()) + if s.last() {
            0nat
        } else {
            1nat
        }
    }
}

/// Setting a false entry true lowers the count by one.
pub proof fn lemma_count_false_set(s: Seq<bool>, i: int)
    requires
        0 <= i < s.len(),
        !s[i],
    ensures
        count_false(s.update(i, true)) + 1 == count_false(s),
    decreases s.len(),
{
    let t = s.update(i, true);
    if i == s.len() - 1 {
        assert(t.drop_last() =~= s.drop_last());
    } else {
        assert(t.drop_last() =~= s.drop_last().update(i, true));
        lemma_count_false_set(s.drop_last(), i);
    }
}

} // verus!
