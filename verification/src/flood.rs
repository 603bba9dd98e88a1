use crate::map::{
    lemma_cell_index_bounds, lemma_cell_index_injective, Position, TileMap, TileMapView, TileType,
};
use crate::reach::{
    adjacent, is_path, lemma_open_is_walkable, lemma_reachable_in_reached, lemma_reachable_self,
    lemma_reachable_step, path_between, reachable,
};
use vstd::prelude::*;

verus! {

/// The flag of the cell (x, y) in an array with one flag per tile.
pub open spec fn marked(m: TileMapView, flags: Seq<bool>, x: int, y: int) -> bool {
    flags[m.index(x, y)]
}

/// `flags` marks exactly the cells to which a mover can walk from `start`.
pub open spec fn marks_reachable(m: TileMapView, flags: Seq<bool>, start: (int, int)) -> bool {
    &&& flags.len() == m.tiles.len()
    &&& forall|x: int, y: int|
        m.in_bounds(x, y) ==> (#[trigger] marked(m, flags, x, y) <==> reachable(
            m.open_cells(),
            start,
            (x, y),
        ))
}

spec fn neighbour_done(m: TileMapView, flags: Seq<bool>, x: int, y: int) -> bool {
    m.exit_valid(x, y) ==> marked(m, flags, x, y)
}

/// Every neighbour of (x, y) onto which a mover may step is marked.
spec fn closed(m: TileMapView, flags: Seq<bool>, x: int, y: int) -> bool {
    &&& neighbour_done(m, flags, x - 1, y)
    &&& neighbour_done(m, flags, x + 1, y)
    &&& neighbour_done(m, flags, x, y - 1)
    &&& neighbour_done(m, flags, x, y + 1)
    &&& neighbour_done(m, flags, x - 1, y - 1)
    &&& neighbour_done(m, flags, x + 1, y - 1)
    &&& neighbour_done(m, flags, x - 1, y + 1)
    &&& neighbour_done(m, flags, x + 1, y + 1)
}

spec fn on_stack(stack: Seq<Position>, x: int, y: int) -> bool {
    exists|i: int| 0 <= i < stack.len() && (#[trigger] stack[i]).x == x && stack[i].y == y
}

/// What holds while the fill runs: every marked cell can be reached from
/// the start, every cell on the stack is marked, and every marked cell has
/// had its neighbours looked at unless it waits on the stack or is the one
/// being worked on.
spec fn fill_invariant(
    m: TileMapView,
    start: (int, int),
    flags: Seq<bool>,
    stack: Seq<Position>,
    current: Option<(int, int)>,
) -> bool {
    &&& flags.len() == m.tiles.len()
    &&& forall|i: int|
        0 <= i < stack.len() ==> m.in_bounds((#[trigger] stack[i]).x as int, stack[i].y as int)
            && marked(m, flags, stack[i].x as int, stack[i].y as int)
    &&& forall|x: int, y: int|
        m.in_bounds(x, y) && #[trigger] marked(m, flags, x, y) ==> reachable(
            m.open_cells(),
            start,
            (x, y),
        )
    &&& forall|x: int, y: int|
        m.in_bounds(x, y) && #[trigger] marked(m, flags, x, y) ==> closed(m, flags, x, y)
            || current == Some((x, y)) || on_stack(stack, x, y)
}

/// The indices that are not marked yet.
spec fn unmarked(flags: Seq<bool>) -> Set<int> {
    Set::new(|i: int| 0 <= i < flags.len() && !flags[i])
}

proof fn lemma_unmarked_finite(flags: Seq<bool>)
    ensures
        unmarked(flags).finite(),
{
    vstd::set_lib::lemma_int_range(0, flags.len() as int);
    vstd::set_lib::lemma_len_subset(
        unmarked(flags),
        vstd::set_lib::set_int_range(0, flags.len() as int),
    );
}

proof fn lemma_mark_one(flags: Seq<bool>, k: int)
    requires
        0 <= k < flags.len(),
        !flags[k],
    ensures
        unmarked(flags.update(k, true)).len() + 1 == unmarked(flags).len(),
{
    lemma_unmarked_finite(flags);
    assert(unmarked(flags.update(k, true)) =~= unmarked(flags).remove(k));
    assert(unmarked(flags).contains(k));
}

/// Once every marked cell has had its neighbours looked at, every cell on
/// a walk from the start is marked.
proof fn lemma_closed_holds_walk(
    m: TileMapView,
    flags: Seq<bool>,
    start: (int, int),
    path: Seq<(int, int)>,
    k: int,
)
    requires
        m.wf(),
        flags.len() == m.tiles.len(),
        m.in_bounds(start.0, start.1),
        marked(m, flags, start.0, start.1),
        forall|x: int, y: int|
            m.in_bounds(x, y) && #[trigger] marked(m, flags, x, y) ==> closed(m, flags, x, y),
        is_path(m.open_cells(), path),
        path[0] == start,
        0 <= k < path.len(),
    ensures
        m.in_bounds(path[k].0, path[k].1),
        marked(m, flags, path[k].0, path[k].1),
    decreases k,
{
    if k > 0 {
        lemma_closed_holds_walk(m, flags, start, path, k - 1);
        let a = path[k - 1];
        let b = path[k];
        assert(adjacent(a, b) && m.open_cells().contains(b));
        assert(m.exit_valid(b.0, b.1));
        assert(closed(m, flags, a.0, a.1));
    }
}

/// Looks at one neighbour of the cell being worked on: if a mover may step
/// there and the cell is not marked yet, marks it and puts it on the stack.
fn visit(
    map: &TileMap,
    flags: &mut Vec<bool>,
    stack: &mut Vec<Position>,
    x: i32,
    y: i32,
    Ghost(start): Ghost<(int, int)>,
    Ghost(from): Ghost<(int, int)>,
)
    requires
        map.wf(),
        fill_invariant(map@, start, old(flags)@, old(stack)@, Some(from)),
        map@.in_bounds(from.0, from.1),
        marked(map@, old(flags)@, from.0, from.1),
        adjacent(from, (x as int, y as int)),
    ensures
        fill_invariant(map@, start, final(flags)@, final(stack)@, Some(from)),
        marked(map@, final(flags)@, from.0, from.1),
        neighbour_done(map@, final(flags)@, x as int, y as int),
        final(flags)@.len() == old(flags)@.len(),
        forall|i: int| 0 <= i < old(flags)@.len() && old(flags)@[i] ==> #[trigger] final(flags)@[i],
        2 * unmarked(final(flags)@).len() + final(stack)@.len() <= 2 * unmarked(
            old(flags)@,
        ).len() + old(stack)@.len(),
{
    if map.is_exit_valid(x, y) {
        let idx = map.xy_idx(x, y);
        if !flags[idx] {
            flags.set(idx, true);
            stack.push(Position { x, y });
            proof {
                let m = map@;
                let before = old(flags)@;
                let after = flags@;
                lemma_mark_one(before, idx as int);
                assert(m.open_cells().contains((x as int, y as int)));
                lemma_reachable_step(m.open_cells(), start, from, (x as int, y as int));
                assert forall|cx: int, cy: int| m.in_bounds(cx, cy) implies (#[trigger] marked(
                    m,
                    after,
                    cx,
                    cy,
                ) == (marked(m, before, cx, cy) || (cx == x && cy == y))) by {
                    crate::map::lemma_cell_index_bounds(m.width, m.height, cx, cy);
                    if m.index(cx, cy) == idx {
                        lemma_cell_index_injective(m.width, cx, cy, x as int, y as int);
                    }
                }
                assert forall|i: int| 0 <= i < stack@.len() implies m.in_bounds(
                    (#[trigger] stack@[i]).x as int,
                    stack@[i].y as int,
                ) && marked(m, after, stack@[i].x as int, stack@[i].y as int) by {
                    if i < old(stack)@.len() {
                        assert(stack@[i] == old(stack)@[i]);
                    }
                }
                assert forall|cx: int, cy: int|
                    m.in_bounds(cx, cy) && #[trigger] marked(m, after, cx, cy) implies closed(
                    m,
                    after,
                    cx,
                    cy,
                ) || Some(from) == Some((cx, cy)) || on_stack(stack@, cx, cy) by {
                    if cx == x && cy == y {
                        assert(stack@[stack@.len() - 1].x == cx);
                        assert(on_stack(stack@, cx, cy));
                    } else {
                        assert(marked(m, before, cx, cy));
                        if on_stack(old(stack)@, cx, cy) {
                            let i = choose|i: int|
                                0 <= i < old(stack)@.len() && (#[trigger] old(stack)@[i]).x == cx
                                    && old(stack)@[i].y == cy;
                            assert(stack@[i] == old(stack)@[i]);
                            assert(on_stack(stack@, cx, cy));
                        } else if Some(from) != Some((cx, cy)) {
                            assert(closed(m, before, cx, cy));
                            lemma_closed_grows(m, before, after, cx, cy);
                        }
                    }
                }
            }
        }
    }
}

/// Marking more cells keeps a cell closed.
proof fn lemma_closed_grows(m: TileMapView, before: Seq<bool>, after: Seq<bool>, x: int, y: int)
    requires
        closed(m, before, x, y),
        before.len() == after.len(),
        m.wf(),
        before.len() == m.tiles.len(),
        forall|i: int| 0 <= i < before.len() && before[i] ==> #[trigger] after[i],
    ensures
        closed(m, after, x, y),
{
    lemma_neighbour_grows(m, before, after, x - 1, y);
    lemma_neighbour_grows(m, before, after, x + 1, y);
    lemma_neighbour_grows(m, before, after, x, y - 1);
    lemma_neighbour_grows(m, before, after, x, y + 1);
    lemma_neighbour_grows(m, before, after, x - 1, y - 1);
    lemma_neighbour_grows(m, before, after, x + 1, y - 1);
    lemma_neighbour_grows(m, before, after, x - 1, y + 1);
    lemma_neighbour_grows(m, before, after, x + 1, y + 1);
}

proof fn lemma_neighbour_grows(
    m: TileMapView,
    before: Seq<bool>,
    after: Seq<bool>,
    x: int,
    y: int,
)
    requires
        neighbour_done(m, before, x, y),
        before.len() == after.len(),
        m.wf(),
        before.len() == m.tiles.len(),
        forall|i: int| 0 <= i < before.len() && before[i] ==> #[trigger] after[i],
    ensures
        neighbour_done(m, after, x, y),
{
    if m.exit_valid(x, y) {
        crate::map::lemma_cell_index_bounds(m.width, m.height, x, y);
    }
}

/// Marks every cell to which a mover can walk from (start_x, start_y),
/// stepping to one of the eight neighbours at a time and only onto cells
/// that are valid exits. The start itself is always marked.
pub fn flood_fill(map: &TileMap, start_x: i32, start_y: i32) -> (flags: Vec<bool>)
    requires
        map.wf(),
        map@.in_bounds(start_x as int, start_y as int),
    ensures
        marks_reachable(map@, flags@, (start_x as int, start_y as int)),
{
    let ghost m = map@;
    let ghost start = (start_x as int, start_y as int);
    let n: usize = map.tiles.len();
    let mut flags: Vec<bool> = vec![false; n];
    let mut stack: Vec<Position> = Vec::new();
    let first: usize = map.xy_idx(start_x, start_y);
    flags.set(first, true);
    stack.push(Position { x: start_x, y: start_y });
    proof {
        lemma_reachable_self(m.open_cells(), start);
        assert forall|cx: int, cy: int| m.in_bounds(cx, cy) && #[trigger] marked(
            m,
            flags@,
            cx,
            cy,
        ) implies cx == start_x && cy == start_y by {
            crate::map::lemma_cell_index_bounds(m.width, m.height, cx, cy);
            if m.index(cx, cy) == first {
                lemma_cell_index_injective(m.width, cx, cy, start_x as int, start_y as int);
            }
        }
        assert(stack@[0].x == start_x);
        assert(on_stack(stack@, start_x as int, start_y as int));
        lemma_unmarked_finite(flags@);
    }
    while stack.len() > 0
        invariant
            map.wf(),
            m == map@,
            start == (start_x as int, start_y as int),
            m.in_bounds(start_x as int, start_y as int),
            marked(m, flags@, start_x as int, start_y as int),
            fill_invariant(m, start, flags@, stack@, None),
        decreases 2 * unmarked(flags@).len() + stack@.len(),
    {
        let ghost stack_before = stack@;
        let p: Position = stack.pop().unwrap();
        let ghost from = (p.x as int, p.y as int);
        proof {
            assert(stack_before[stack_before.len() - 1] == p);
            assert forall|cx: int, cy: int|
                m.in_bounds(cx, cy) && #[trigger] marked(m, flags@, cx, cy) implies closed(
                m,
                flags@,
                cx,
                cy,
            ) || Some(from) == Some((cx, cy)) || on_stack(stack@, cx, cy) by {
                if on_stack(stack_before, cx, cy) {
                    let i = choose|i: int|
                        0 <= i < stack_before.len() && (#[trigger] stack_before[i]).x == cx
                            && stack_before[i].y == cy;
                    if i < stack@.len() {
                        assert(stack@[i] == stack_before[i]);
                        assert(on_stack(stack@, cx, cy));
                    }
                }
            }
            assert forall|i: int| 0 <= i < stack@.len() implies m.in_bounds(
                (#[trigger] stack@[i]).x as int,
                stack@[i].y as int,
            ) && marked(m, flags@, stack@[i].x as int, stack@[i].y as int) by {
                assert(stack@[i] == stack_before[i]);
            }
        }
        let ghost flags0 = flags@;
        visit(map, &mut flags, &mut stack, p.x - 1, p.y, Ghost(start), Ghost(from));
        let ghost flags1 = flags@;
        visit(map, &mut flags, &mut stack, p.x + 1, p.y, Ghost(start), Ghost(from));
        let ghost flags2 = flags@;
        visit(map, &mut flags, &mut stack, p.x, p.y - 1, Ghost(start), Ghost(from));
        let ghost flags3 = flags@;
        visit(map, &mut flags, &mut stack, p.x, p.y + 1, Ghost(start), Ghost(from));
        let ghost flags4 = flags@;
        visit(map, &mut flags, &mut stack, p.x - 1, p.y - 1, Ghost(start), Ghost(from));
        let ghost flags5 = flags@;
        visit(map, &mut flags, &mut stack, p.x + 1, p.y - 1, Ghost(start), Ghost(from));
        let ghost flags6 = flags@;
        visit(map, &mut flags, &mut stack, p.x - 1, p.y + 1, Ghost(start), Ghost(from));
        let ghost flags7 = flags@;
        visit(map, &mut flags, &mut stack, p.x + 1, p.y + 1, Ghost(start), Ghost(from));
        proof {
            let x = from.0;
            let y = from.1;
            lemma_neighbour_grows(m, flags1, flags@, x - 1, y);
            lemma_neighbour_grows(m, flags2, flags@, x + 1, y);
            lemma_neighbour_grows(m, flags3, flags@, x, y - 1);
            lemma_neighbour_grows(m, flags4, flags@, x, y + 1);
            lemma_neighbour_grows(m, flags5, flags@, x - 1, y - 1);
            lemma_neighbour_grows(m, flags6, flags@, x + 1, y - 1);
            lemma_neighbour_grows(m, flags7, flags@, x - 1, y + 1);
            assert(closed(m, flags@, x, y));
            crate::map::lemma_cell_index_bounds(
                m.width,
                m.height,
                start_x as int,
                start_y as int,
            );
        }
    }
    proof {
        assert forall|x: int, y: int| m.in_bounds(x, y) implies (#[trigger] marked(
            m,
            flags@,
            x,
            y,
        ) <==> reachable(m.open_cells(), start, (x, y))) by {
            if reachable(m.open_cells(), start, (x, y)) {
                let path = choose|path: Seq<(int, int)>|
                    path_between(m.open_cells(), path, start, (x, y));
                assert forall|cx: int, cy: int|
                    m.in_bounds(cx, cy) && #[trigger] marked(m, flags@, cx, cy) implies closed(
                    m,
                    flags@,
                    cx,
                    cy,
                ) by {
                    assert(!on_stack(stack@, cx, cy));
                }
                lemma_closed_holds_walk(m, flags@, start, path, path.len() - 1);
            }
        }
    }
    flags
}

/// `after` is `before` with every tile that `flags` does not mark turned
/// into wall, and nothing else changed.
pub open spec fn culled(before: TileMapView, after: TileMapView, flags: Seq<bool>) -> bool {
    &&& after == (TileMapView { tiles: after.tiles, ..before })
    &&& after.tiles.len() == before.tiles.len()
    &&& forall|i: int|
        0 <= i < before.tiles.len() ==> #[trigger] after.tiles[i] == if flags[i] {
            before.tiles[i]
        } else {
            TileType::Wall
        }
}

/// Walls up every tile that is not marked.
pub fn cull_unreached(map: &mut TileMap, flags: &Vec<bool>)
    requires
        old(map).wf(),
        flags@.len() == old(map)@.tiles.len(),
    ensures
        culled(old(map)@, final(map)@, flags@),
{
    let n: usize = map.tiles.len();
    let mut i: usize = 0;
    while i < n
        invariant
            i <= n,
            n == old(map)@.tiles.len(),
            n == flags@.len(),
            map@ == (TileMapView { tiles: map@.tiles, ..old(map)@ }),
            map@.tiles.len() == n,
            forall|j: int|
                0 <= j < n ==> #[trigger] map@.tiles[j] == if j >= i || flags@[j] {
                    old(map)@.tiles[j]
                } else {
                    TileType::Wall
                },
        decreases n - i,
    {
        if !flags[i] {
            map.tiles.set(i, TileType::Wall);
        }
        i += 1;
    }
}

/// After the tiles that cannot be reached from `start` were walled up,
/// every tile that is not a wall can be reached from `start`.
pub proof fn lemma_cull_connects(
    before: TileMapView,
    after: TileMapView,
    flags: Seq<bool>,
    start: (int, int),
)
    requires
        before.wf(),
        before.blocked_is_walls(),
        marks_reachable(before, flags, start),
        culled(before, after, flags),
    ensures
        after.tiles_connected(start),
        forall|x: int, y: int|
            after.in_bounds(x, y) ==> #[trigger] after.tile_at(x, y) == if marked(
                before,
                flags,
                x,
                y,
            ) {
                before.tile_at(x, y)
            } else {
                TileType::Wall
            },
{
    lemma_open_is_walkable(before);
    assert forall|x: int, y: int| after.in_bounds(x, y) implies #[trigger] after.tile_at(x, y)
        == if marked(before, flags, x, y) {
        before.tile_at(x, y)
    } else {
        TileType::Wall
    } by {
        lemma_cell_index_bounds(before.width, before.height, x, y);
    }
    assert forall|x: int, y: int|
        after.in_bounds(x, y) && #[trigger] after.tile_at(x, y)
            != TileType::Wall implies reachable(after.walkable_cells(), start, (x, y)) by {
        assert(marked(before, flags, x, y));
        assert(reachable(before.walkable_cells(), start, (x, y)));
        assert forall|c: (int, int)|
            before.walkable_cells().contains(c) && reachable(
                before.walkable_cells(),
                start,
                c,
            ) implies after.walkable_cells().contains(c) by {
            assert(before.walkable(c.0, c.1));
            assert(before.in_bounds(c.0, c.1));
            assert(marked(before, flags, c.0, c.1));
            assert(after.tile_at(c.0, c.1) == before.tile_at(c.0, c.1));
            assert(after.walkable(c.0, c.1));
        }
        lemma_reachable_in_reached(
            before.walkable_cells(),
            after.walkable_cells(),
            start,
            (x, y),
        );
    }
}

} // verus!
