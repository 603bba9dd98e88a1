use crate::map::{TileMapView, TileType};
use vstd::prelude::*;

verus! {

/// Two different cells that touch, along an edge or at a corner.
pub open spec fn adjacent(a: (int, int), b: (int, int)) -> bool {
    &&& a != b
    &&& -1 <= a.0 - b.0 <= 1
    &&& -1 <= a.1 - b.1 <= 1
}

/// A walk over the grid: every cell after the first touches the one before
/// it and is open to a mover.
pub open spec fn is_path(open: Set<(int, int)>, path: Seq<(int, int)>) -> bool {
    &&& path.len() >= 1
    &&& forall|i: int|
        1 <= i < path.len() ==> adjacent(path[i - 1], #[trigger] path[i]) && open.contains(
            path[i],
        )
}

pub open spec fn path_between(
    open: Set<(int, int)>,
    path: Seq<(int, int)>,
    from: (int, int),
    to: (int, int),
) -> bool {
    &&& is_path(open, path)
    &&& path[0] == from
    &&& path.last() == to
}

/// A mover at `from` can walk to `to`, stepping only onto open cells.
pub open spec fn reachable(open: Set<(int, int)>, from: (int, int), to: (int, int)) -> bool {
    exists|path: Seq<(int, int)>| path_between(open, path, from, to)
}

/// Every cell is reachable from itself.
pub proof fn lemma_reachable_self(open: Set<(int, int)>, a: (int, int))
    ensures
        reachable(open, a, a),
{
    assert(path_between(open, seq![a], a, a));
}

/// A walk can be extended by one step onto an open neighbour.
pub proof fn lemma_reachable_step(
    open: Set<(int, int)>,
    from: (int, int),
    via: (int, int),
    to: (int, int),
)
    requires
        reachable(open, from, via),
        adjacent(via, to),
        open.contains(to),
    ensures
        reachable(open, from, to),
{
    let path = choose|path: Seq<(int, int)>| path_between(open, path, from, via);
    assert(path_between(open, path.push(to), from, to));
}

/// Two walks, one ending where the other starts, make one walk.
pub proof fn lemma_reachable_transitive(
    open: Set<(int, int)>,
    a: (int, int),
    b: (int, int),
    c: (int, int),
)
    requires
        reachable(open, a, b),
        reachable(open, b, c),
    ensures
        reachable(open, a, c),
{
    let p = choose|p: Seq<(int, int)>| path_between(open, p, a, b);
    let q = choose|q: Seq<(int, int)>| path_between(open, q, b, c);
    let r = p + q.subrange(1, q.len() as int);
    assert forall|i: int| 1 <= i < r.len() implies adjacent(r[i - 1], #[trigger] r[i])
        && open.contains(r[i]) by {
        if i < p.len() {
            assert(r[i] == p[i]);
        } else {
            assert(r[i] == q[i - p.len() + 1]);
            if i == p.len() {
                assert(r[i - 1] == q[0]);
            } else {
                assert(r[i - 1] == q[i - p.len()]);
            }
        }
    }
    assert(path_between(open, r, a, c));
}

/// Opening more cells keeps every walk.
pub proof fn lemma_reachable_monotone(
    open: Set<(int, int)>,
    wider: Set<(int, int)>,
    a: (int, int),
    b: (int, int),
)
    requires
        reachable(open, a, b),
        open.subset_of(wider),
    ensures
        reachable(wider, a, b),
{
    let p = choose|p: Seq<(int, int)>| path_between(open, p, a, b);
    assert(path_between(wider, p, a, b));
}

/// Closing cells that cannot be reached from `from` keeps every walk that
/// starts at `from`.
pub proof fn lemma_reachable_in_reached(
    open: Set<(int, int)>,
    kept: Set<(int, int)>,
    from: (int, int),
    to: (int, int),
)
    requires
        reachable(open, from, to),
        forall|c: (int, int)| open.contains(c) && reachable(open, from, c) ==> kept.contains(c),
    ensures
        reachable(kept, from, to),
{
    let p = choose|p: Seq<(int, int)>| path_between(open, p, from, to);
    assert forall|i: int| 1 <= i < p.len() implies adjacent(p[i - 1], #[trigger] p[i])
        && kept.contains(p[i]) by {
        let prefix = p.subrange(0, i + 1);
        assert(path_between(open, prefix, from, p[i]));
    }
    assert(path_between(kept, p, from, to));
}

/// In a block of open cells, a mover gets from every cell to every other.
pub proof fn lemma_block_connected(
    open: Set<(int, int)>,
    left: int,
    top: int,
    right: int,
    bottom: int,
    a: (int, int),
    b: (int, int),
)
    requires
        forall|x: int, y: int|
            left <= x <= right && top <= y <= bottom ==> #[trigger] open.contains((x, y)),
        left <= a.0 <= right && top <= a.1 <= bottom,
        left <= b.0 <= right && top <= b.1 <= bottom,
    ensures
        reachable(open, a, b),
    decreases
            (if a.0 <= b.0 {
                b.0 - a.0
            } else {
                a.0 - b.0
            }) + (if a.1 <= b.1 {
                b.1 - a.1
            } else {
                a.1 - b.1
            }),
{
    if a == b {
        lemma_reachable_self(open, a);
    } else {
        let via: (int, int) = if b.0 > a.0 {
            (b.0 - 1, b.1)
        } else if b.0 < a.0 {
            (b.0 + 1, b.1)
        } else if b.1 > a.1 {
            (b.0, b.1 - 1)
        } else {
            (b.0, b.1 + 1)
        };
        lemma_block_connected(open, left, top, right, bottom, a, via);
        assert(open.contains((b.0, b.1)));
        lemma_reachable_step(open, a, via, b);
    }
}

impl TileMapView {
    /// The cells onto which a mover may step.
    pub open spec fn open_cells(self) -> Set<(int, int)> {
        Set::new(|c: (int, int)| self.exit_valid(c.0, c.1))
    }

    /// (x, y) is no wall and keeps the margin that a valid exit keeps.
    pub open spec fn walkable(self, x: int, y: int) -> bool {
        &&& 1 <= x <= self.width - 2
        &&& 1 <= y <= self.height - 2
        &&& self.tile_at(x, y) != TileType::Wall
    }

    /// The cells onto which a mover may step once `blocked` holds exactly
    /// the walls.
    pub open spec fn walkable_cells(self) -> Set<(int, int)> {
        Set::new(|c: (int, int)| self.walkable(c.0, c.1))
    }

    /// Like `fully_connected`, but read off the tiles alone.
    pub open spec fn tiles_connected(self, start: (int, int)) -> bool {
        forall|x: int, y: int|
            self.in_bounds(x, y) && #[trigger] self.tile_at(x, y) != TileType::Wall ==> reachable(
                self.walkable_cells(),
                start,
                (x, y),
            )
    }

    /// A mover who starts at `start` can walk to every tile that is not a
    /// wall, moving to one of the eight neighbours at each step.
    pub open spec fn fully_connected(self, start: (int, int)) -> bool {
        forall|x: int, y: int|
            self.in_bounds(x, y) && #[trigger] self.tile_at(x, y) != TileType::Wall ==> reachable(
                self.open_cells(),
                start,
                (x, y),
            )
    }
}

/// Where `blocked` holds exactly the walls, a mover may step onto exactly
/// the walkable cells.
pub proof fn lemma_open_is_walkable(m: TileMapView)
    requires
        m.wf(),
        m.blocked_is_walls(),
    ensures
        m.open_cells() == m.walkable_cells(),
{
    assert forall|c: (int, int)| m.open_cells().contains(c) == m.walkable_cells().contains(
        c,
    ) by {
        if 1 <= c.0 <= m.width - 2 && 1 <= c.1 <= m.height - 2 {
            crate::map::lemma_cell_index_bounds(m.width, m.height, c.0, c.1);
        }
    }
    assert(m.open_cells() =~= m.walkable_cells());
}

/// Every cell of a block of walkable cells can be reached from `start`, if
/// one of them can.
pub proof fn lemma_block_reached(
    m: TileMapView,
    start: (int, int),
    left: int,
    top: int,
    right: int,
    bottom: int,
    anchor: (int, int),
    cell: (int, int),
)
    requires
        forall|x: int, y: int|
            left <= x <= right && top <= y <= bottom ==> #[trigger] m.walkable(x, y),
        left <= anchor.0 <= right && top <= anchor.1 <= bottom,
        left <= cell.0 <= right && top <= cell.1 <= bottom,
        reachable(m.walkable_cells(), start, anchor),
    ensures
        reachable(m.walkable_cells(), start, cell),
{
    assert forall|x: int, y: int|
        left <= x <= right && top <= y <= bottom implies #[trigger] m.walkable_cells().contains(
        (x, y),
    ) by {
        assert(m.walkable(x, y));
    }
    lemma_block_connected(m.walkable_cells(), left, top, right, bottom, anchor, cell);
    lemma_reachable_transitive(m.walkable_cells(), start, anchor, cell);
}

/// Turning walls into floor keeps every walk.
pub proof fn lemma_carving_keeps_walks(
    before: TileMapView,
    after: TileMapView,
    a: (int, int),
    b: (int, int),
)
    requires
        before.width == after.width,
        before.height == after.height,
        forall|x: int, y: int| before.walkable(x, y) ==> #[trigger] after.walkable(x, y),
        reachable(before.walkable_cells(), a, b),
    ensures
        reachable(after.walkable_cells(), a, b),
{
    assert forall|c: (int, int)| before.walkable_cells().contains(c) implies after.walkable_cells().contains(
    c) by {
        assert(after.walkable(c.0, c.1));
    }
    lemma_reachable_monotone(before.walkable_cells(), after.walkable_cells(), a, b);
}

} // verus!
