//! Walks through the open cells of a tile grid, and what they connect.

use grid::Grid;
use vstd::prelude::*;

use crate::rooms::RoomBounds;
use crate::tile::{floor_kind, DungeonTile};
use crate::tilegrid::{in_grid, tile_of};
use crate::visibility::abs;

verus! {

/// A cell of the grid that creatures can travel through.
pub open spec fn open_at(g: Grid<DungeonTile>, c: (int, int)) -> bool {
    in_grid(g, c.0, c.1) && floor_kind(tile_of(g, c.0, c.1))
}

/// Two cells that share a side.
pub open spec fn adjacent(a: (int, int), b: (int, int)) -> bool {
    abs(a.0 - b.0) + abs(a.1 - b.1) == 1
}

/// A nonempty sequence of open cells, each one sharing a side with the next.
pub open spec fn is_walk(g: Grid<DungeonTile>, p: Seq<(int, int)>) -> bool {
    &&& p.len() > 0
    &&& forall|i: int| 0 <= i < p.len() ==> open_at(g, #[trigger] p[i])
    &&& forall|i: int| 0 <= i < p.len() - 1 ==> adjacent(#[trigger] p[i], p[i + 1])
}

/// Some walk leads from `a` to `b`.
pub open spec fn linked(g: Grid<DungeonTile>, a: (int, int), b: (int, int)) -> bool {
    exists|p: Seq<(int, int)>| #[trigger] is_walk(g, p) && p[0] == a && p.last() == b
}

/// Every open cell of the grid can be reached from every other one.
pub open spec fn connected(g: Grid<DungeonTile>) -> bool {
    forall|a: (int, int), b: (int, int)| open_at(g, a) && open_at(g, b) ==> #[trigger] linked(g, a, b)
}

/// Some room of `rooms` from index `lo` on contains `c`.
pub open spec fn in_some_room(rooms: Seq<RoomBounds>, lo: int, c: (int, int)) -> bool {
    exists|j: int| lo <= j < rooms.len() && (#[trigger] rooms[j]).contains(c)
}

/// Every cell open in `g1` is open in `g2`.
pub open spec fn opens_kept(g1: Grid<DungeonTile>, g2: Grid<DungeonTile>) -> bool {
    forall|c: (int, int)| open_at(g1, c) ==> #[trigger] open_at(g2, c)
}

pub proof fn lemma_linked_refl(g: Grid<DungeonTile>, a: (int, int))
    requires
        open_at(g, a),
    ensures
        linked(g, a, a),
{
    let p = seq![a];
    assert(is_walk(g, p));
}

pub proof fn lemma_linked_step(g: Grid<DungeonTile>, a: (int, int), b: (int, int))
    requires
        open_at(g, a),
        open_at(g, b),
        adjacent(a, b),
    ensures
        linked(g, a, b),
{
    let p = seq![a, b];
    assert(is_walk(g, p));
}

pub proof fn lemma_linked_trans(g: Grid<DungeonTile>, a: (int, int), b: (int, int), c: (int, int))
    requires
        linked(g, a, b),
        linked(g, b, c),
    ensures
        linked(g, a, c),
{
    let p = choose|p: Seq<(int, int)>| #[trigger] is_walk(g, p) && p[0] == a && p.last() == b;
    let q = choose|q: Seq<(int, int)>| #[trigger] is_walk(g, q) && q[0] == b && q.last() == c;
    let w = p + q.subrange(1, q.len() as int);
    assert forall|i: int| 0 <= i < w.len() implies open_at(g, #[trigger] w[i]) by {
        if i >= p.len() {
            assert(w[i] == q[i - p.len() + 1]);
        }
    }
    assert forall|i: int| 0 <= i < w.len() - 1 implies adjacent(#[trigger] w[i], w[i + 1]) by {
        if i >= p.len() {
            assert(w[i] == q[i - p.len() + 1]);
            assert(w[i + 1] == q[i - p.len() + 2]);
        } else if i == p.len() - 1 {
            assert(w[i + 1] == q[1]);
            assert(adjacent(q[0], q[1]));
        }
    }
    assert(is_walk(g, w));
    if q.len() == 1 {
        assert(w.last() == p.last());
    } else {
        assert(w.last() == q.last());
    }
}

pub proof fn lemma_linked_sym(g: Grid<DungeonTile>, a: (int, int), b: (int, int))
    requires
        linked(g, a, b),
    ensures
        linked(g, b, a),
{
    let p = choose|p: Seq<(int, int)>| #[trigger] is_walk(g, p) && p[0] == a && p.last() == b;
    let w = p.reverse();
    assert forall|i: int| 0 <= i < w.len() implies open_at(g, #[trigger] w[i]) by {
        assert(w[i] == p[p.len() - 1 - i]);
    }
    assert forall|i: int| 0 <= i < w.len() - 1 implies adjacent(#[trigger] w[i], w[i + 1]) by {
        assert(w[i] == p[p.len() - 1 - i]);
        assert(w[i + 1] == p[p.len() - 2 - i]);
        assert(adjacent(p[p.len() - 2 - i], p[p.len() - 1 - i]));
    }
    assert(is_walk(g, w));
}

/// A walk stays a walk when no open cell closes.
pub proof fn lemma_linked_kept(g1: Grid<DungeonTile>, g2: Grid<DungeonTile>, a: (int, int), b: (int, int))
    requires
        linked(g1, a, b),
        opens_kept(g1, g2),
    ensures
        linked(g2, a, b),
{
    let p = choose|p: Seq<(int, int)>| #[trigger] is_walk(g1, p) && p[0] == a && p.last() == b;
    assert forall|i: int| 0 <= i < p.len() implies open_at(g2, #[trigger] p[i]) by {
        assert(open_at(g1, p[i]));
    }
    assert(is_walk(g2, p));
}

/// Every cell of a walk is linked to its first cell.
pub proof fn lemma_walk_prefix(g: Grid<DungeonTile>, p: Seq<(int, int)>, i: int)
    requires
        is_walk(g, p),
        0 <= i < p.len(),
    ensures
        linked(g, p[0], p[i]),
{
    let w = p.subrange(0, i + 1);
    assert forall|k: int| 0 <= k < w.len() implies open_at(g, #[trigger] w[k]) by {
        assert(w[k] == p[k]);
    }
    assert forall|k: int| 0 <= k < w.len() - 1 implies adjacent(#[trigger] w[k], w[k + 1]) by {
        assert(w[k] == p[k]);
        assert(w[k + 1] == p[k + 1]);
    }
    assert(is_walk(g, w));
}

/// Within an open box, every cell is linked to every other: walk along the
/// row first, then along the column.
pub proof fn lemma_box_linked(
    g: Grid<DungeonTile>,
    x0: int,
    y0: int,
    x1: int,
    y1: int,
    a: (int, int),
    b: (int, int),
)
    requires
        forall|c: (int, int)| x0 <= c.0 < x1 && y0 <= c.1 < y1 ==> #[trigger] open_at(g, c),
        x0 <= a.0 < x1 && y0 <= a.1 < y1,
        x0 <= b.0 < x1 && y0 <= b.1 < y1,
    ensures
        linked(g, a, b),
    decreases abs(a.0 - b.0) + abs(a.1 - b.1),
{
    if a == b {
        lemma_linked_refl(g, a);
    } else {
        let n = if a.0 < b.0 {
            (a.0 + 1, a.1)
        } else if a.0 > b.0 {
            (a.0 - 1, a.1)
        } else if a.1 < b.1 {
            (a.0, a.1 + 1)
        } else {
            (a.0, a.1 - 1)
        };
        assert(open_at(g, a));
        assert(open_at(g, n));
        lemma_linked_step(g, a, n);
        lemma_box_linked(g, x0, y0, x1, y1, n, b);
        lemma_linked_trans(g, a, n, b);
    }
}

} // verus!
