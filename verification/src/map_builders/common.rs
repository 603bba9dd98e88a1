use crate::map::{
    lemma_cell_index_bounds, lemma_cell_index_injective, Position, TileMap, TileMapView, TileType,
};
use crate::reach::{
    lemma_block_reached, lemma_carving_keeps_walks, lemma_open_is_walkable, lemma_reachable_self,
    reachable,
};
use crate::rect::{lemma_center_covered, lemma_disjoint_rooms_share_no_cell, Rect};
use vstd::prelude::*;

verus! {

/// `after` is `before` with the cells picked by `cells` turned into floor,
/// as far as they lie inside the grid, and nothing else changed.
pub open spec fn carved_where(
    before: TileMapView,
    after: TileMapView,
    cells: spec_fn(int, int) -> bool,
) -> bool {
    &&& after == (TileMapView { tiles: after.tiles, ..before })
    &&& after.tiles.len() == before.tiles.len()
    &&& forall|x: int, y: int|
        before.in_bounds(x, y) ==> #[trigger] after.tile_at(x, y) == if cells(x, y) {
            TileType::Floor
        } else {
            before.tile_at(x, y)
        }
}

/// (x, y) lies in the block of cells from (left, top) to (right, bottom).
pub open spec fn in_block(x: int, y: int, left: int, top: int, right: int, bottom: int) -> bool {
    left <= x <= right && top <= y <= bottom
}

pub open spec fn lesser(a: int, b: int) -> int {
    if a <= b {
        a
    } else {
        b
    }
}

pub open spec fn greater(a: int, b: int) -> int {
    if a <= b {
        b
    } else {
        a
    }
}

/// (x, y) lies on the corridor that runs from (x1, y1) along the row to
/// column x2 and then along that column to (x2, y2).
pub open spec fn on_corridor(x: int, y: int, x1: int, y1: int, x2: int, y2: int) -> bool {
    in_block(x, y, lesser(x1, x2), y1, greater(x1, x2), y1) || in_block(
        x,
        y,
        x2,
        lesser(y1, y2),
        x2,
        greater(y1, y2),
    )
}

/// Changes the tile at (x, y) and nothing else.
pub fn set_tile(map: &mut TileMap, x: i32, y: i32, tile: TileType)
    requires
        old(map).wf(),
        old(map)@.in_bounds(x as int, y as int),
    ensures
        final(map)@ == (TileMapView { tiles: final(map)@.tiles, ..old(map)@ }),
        final(map)@.tiles.len() == old(map)@.tiles.len(),
        forall|cx: int, cy: int|
            old(map)@.in_bounds(cx, cy) ==> #[trigger] final(map)@.tile_at(cx, cy) == if cx == x
                && cy == y {
                tile
            } else {
                old(map)@.tile_at(cx, cy)
            },
{
    let idx: usize = map.xy_idx(x, y);
    map.tiles.set(idx, tile);
    proof {
        let before = old(map)@;
        assert forall|cx: int, cy: int| before.in_bounds(cx, cy) implies #[trigger] map@.tile_at(
            cx,
            cy,
        ) == if cx == x && cy == y {
            tile
        } else {
            before.tile_at(cx, cy)
        } by {
            lemma_cell_index_bounds(before.width, before.height, cx, cy);
            if before.index(cx, cy) == idx {
                lemma_cell_index_injective(before.width, cx, cy, x as int, y as int);
            }
        }
    }
}

/// Turns every cell of a block into floor; the part of the block outside
/// the grid is passed over.
fn carve_block(map: &mut TileMap, left: i32, top: i32, right: i32, bottom: i32)
    requires
        old(map).wf(),
    ensures
        carved_where(
            old(map)@,
            final(map)@,
            |x: int, y: int| in_block(x, y, left as int, top as int, right as int, bottom as int),
        ),
{
    let x_lo: i32 = if left < 0 {
        0
    } else {
        left
    };
    let x_hi: i32 = if right > map.width - 1 {
        map.width - 1
    } else {
        right
    };
    let y_lo: i32 = if top < 0 {
        0
    } else {
        top
    };
    let y_hi: i32 = if bottom > map.height - 1 {
        map.height - 1
    } else {
        bottom
    };
    if x_lo > x_hi || y_lo > y_hi {
        assert(map@ == (TileMapView { tiles: map@.tiles, ..old(map)@ }));
        return ;
    }
    let ghost before = old(map)@;
    let mut y: i32 = y_lo;
    while y <= y_hi
        invariant
            before == old(map)@,
            before.wf(),
            map@ == (TileMapView { tiles: map@.tiles, ..before }),
            map@.tiles.len() == before.tiles.len(),
            0 <= x_lo <= x_hi < before.width,
            0 <= y_lo <= y <= y_hi + 1 <= before.height,
            x_lo == greater(left as int, 0),
            x_hi == lesser(right as int, before.width - 1),
            y_lo == greater(top as int, 0),
            y_hi == lesser(bottom as int, before.height - 1),
            forall|cx: int, cy: int|
                before.in_bounds(cx, cy) ==> #[trigger] map@.tile_at(cx, cy) == if in_block(
                    cx,
                    cy,
                    left as int,
                    top as int,
                    right as int,
                    bottom as int,
                ) && cy < y {
                    TileType::Floor
                } else {
                    before.tile_at(cx, cy)
                },
        decreases y_hi - y + 1,
    {
        let mut x: i32 = x_lo;
        while x <= x_hi
            invariant
                before.wf(),
                map@ == (TileMapView { tiles: map@.tiles, ..before }),
                map@.tiles.len() == before.tiles.len(),
                0 <= x_lo <= x <= x_hi + 1 <= before.width,
                0 <= y_lo <= y <= y_hi < before.height,
                x_lo == greater(left as int, 0),
                x_hi == lesser(right as int, before.width - 1),
                y_lo == greater(top as int, 0),
                y_hi == lesser(bottom as int, before.height - 1),
                forall|cx: int, cy: int|
                    before.in_bounds(cx, cy) ==> #[trigger] map@.tile_at(cx, cy) == if in_block(
                        cx,
                        cy,
                        left as int,
                        top as int,
                        right as int,
                        bottom as int,
                    ) && (cy < y || (cy == y && cx < x)) {
                        TileType::Floor
                    } else {
                        before.tile_at(cx, cy)
                    },
            decreases x_hi - x + 1,
        {
            set_tile(map, x, y, TileType::Floor);
            x += 1;
        }
        y += 1;
    }
}

/// Carves a room: every cell that the rectangle covers becomes floor.
pub fn apply_room_to_map(map: &mut TileMap, room: &Rect)
    requires
        old(map).wf(),
    ensures
        carved_where(old(map)@, final(map)@, |x: int, y: int| room.covers(x, y)),
{
    if room.x1 == i32::MAX || room.y1 == i32::MAX {
        assert(map@ == (TileMapView { tiles: map@.tiles, ..old(map)@ }));
        return ;
    }
    carve_block(map, room.x1 + 1, room.y1 + 1, room.x2, room.y2);
}

/// Carves the cells of row `y` between the columns `x1` and `x2`, both
/// included and in either order.
pub fn apply_horizontal_tunnel(map: &mut TileMap, x1: i32, x2: i32, y: i32)
    requires
        old(map).wf(),
    ensures
        carved_where(
            old(map)@,
            final(map)@,
            |cx: int, cy: int|
                in_block(
                    cx,
                    cy,
                    lesser(x1 as int, x2 as int),
                    y as int,
                    greater(x1 as int, x2 as int),
                    y as int,
                ),
        ),
{
    if x1 <= x2 {
        carve_block(map, x1, y, x2, y);
    } else {
        carve_block(map, x2, y, x1, y);
    }
}

/// Carves the cells of column `x` between the rows `y1` and `y2`, both
/// included and in either order.
pub fn apply_vertical_tunnel(map: &mut TileMap, y1: i32, y2: i32, x: i32)
    requires
        old(map).wf(),
    ensures
        carved_where(
            old(map)@,
            final(map)@,
            |cx: int, cy: int|
                in_block(
                    cx,
                    cy,
                    x as int,
                    lesser(y1 as int, y2 as int),
                    x as int,
                    greater(y1 as int, y2 as int),
                ),
        ),
{
    if y1 <= y2 {
        carve_block(map, x, y1, x, y2);
    } else {
        carve_block(map, x, y2, x, y1);
    }
}

/// Carves an L-shaped corridor from (x1, y1) to (x2, y2): along the row
/// first, then along the column.
pub fn draw_corridor(map: &mut TileMap, x1: i32, y1: i32, x2: i32, y2: i32)
    requires
        old(map).wf(),
    ensures
        carved_where(
            old(map)@,
            final(map)@,
            |x: int, y: int| on_corridor(x, y, x1 as int, y1 as int, x2 as int, y2 as int),
        ),
{
    apply_horizontal_tunnel(map, x1, x2, y1);
    apply_vertical_tunnel(map, y1, y2, x2);
}

/// The room lies inside the grid, clear of its border, and is at least two
/// cells wide and high.
pub open spec fn room_fits(m: TileMapView, r: Rect) -> bool {
    &&& 0 <= r.x1
    &&& r.x1 + 2 <= r.x2 <= m.width - 2
    &&& 0 <= r.y1
    &&& r.y1 + 2 <= r.y2 <= m.height - 2
}

pub open spec fn rooms_fit(m: TileMapView, rooms: Seq<Rect>) -> bool {
    forall|i: int| 0 <= i < rooms.len() ==> room_fits(m, #[trigger] rooms[i])
}

/// No two rooms of the list overlap.
pub open spec fn rooms_disjoint(rooms: Seq<Rect>) -> bool {
    forall|i: int, j: int|
        0 <= i < j < rooms.len() ==> !(#[trigger] rooms[i]).overlaps(#[trigger] rooms[j])
}

/// No cell of any room is a wall.
pub open spec fn rooms_carved(m: TileMapView, rooms: Seq<Rect>) -> bool {
    forall|i: int, x: int, y: int|
        0 <= i < rooms.len() && (#[trigger] rooms[i]).covers(x, y) ==> #[trigger] m.tile_at(x, y)
            != TileType::Wall
}

/// (x, y) lies in the first or last row or column of the grid.
pub open spec fn on_border(m: TileMapView, x: int, y: int) -> bool {
    x == 0 || y == 0 || x == m.width - 1 || y == m.height - 1
}

/// The outermost ring of the grid is all wall.
pub open spec fn border_is_wall(m: TileMapView) -> bool {
    forall|x: int, y: int|
        m.in_bounds(x, y) && on_border(m, x, y) ==> #[trigger] m.tile_at(x, y) == TileType::Wall
}

pub open spec fn no_stairs(m: TileMapView) -> bool {
    forall|x: int, y: int| m.in_bounds(x, y) ==> #[trigger] m.tile_at(x, y) != TileType::DownStairs
}

pub open spec fn all_wall(m: TileMapView) -> bool {
    forall|x: int, y: int| m.in_bounds(x, y) ==> #[trigger] m.tile_at(x, y) == TileType::Wall
}

/// The one and only down staircase of the level lies at (x, y).
pub open spec fn single_stairs_at(m: TileMapView, x: int, y: int) -> bool {
    &&& m.in_bounds(x, y)
    &&& forall|cx: int, cy: int|
        m.in_bounds(cx, cy) ==> (#[trigger] m.tile_at(cx, cy) == TileType::DownStairs <==> (cx
            == x && cy == y))
}

/// The staircase of a level that has a single one is the only tile of its
/// kind in the tile array.
pub proof fn lemma_single_stairs_is_one_tile(m: TileMapView, x: int, y: int)
    requires
        m.wf(),
        single_stairs_at(m, x, y),
    ensures
        0 <= m.index(x, y) < m.tiles.len(),
        forall|i: int|
            0 <= i < m.tiles.len() ==> (#[trigger] m.tiles[i] == TileType::DownStairs <==> i
                == m.index(x, y)),
{
    lemma_cell_index_bounds(m.width, m.height, x, y);
    assert forall|i: int| 0 <= i < m.tiles.len() implies (#[trigger] m.tiles[i]
        == TileType::DownStairs <==> i == m.index(x, y)) by {
        crate::map::lemma_index_to_cell(m.width, m.height, i);
        assert(m.tile_at(i % m.width, i / m.width) == m.tiles[i]);
        assert(m.tile_at(x, y) == TileType::DownStairs);
    }
}

/// No two different rooms of a list of rooms that do not overlap share
/// area, in whichever order they are taken.
pub proof fn lemma_rooms_do_not_overlap(rooms: Seq<Rect>, i: int, j: int)
    requires
        rooms_disjoint(rooms),
        0 <= i < rooms.len(),
        0 <= j < rooms.len(),
        i != j,
    ensures
        !rooms[i].overlaps(rooms[j]),
{
    if i < j {
        assert(!rooms[i].overlaps(rooms[j]));
    } else {
        assert(!rooms[j].overlaps(rooms[i]));
    }
}

/// (x, y) is a cell of room number `i` or of the tunnels that may link it
/// to the room before it, whichever way round they were dug.
pub open spec fn in_room_or_link(rooms: Seq<Rect>, i: int, x: int, y: int) -> bool {
    rooms[i].covers(x, y) || (i > 0 && (on_link(x, y, rooms[i - 1], rooms[i], true) || on_link(
        x,
        y,
        rooms[i - 1],
        rooms[i],
        false,
    )))
}

/// Every tile that is not a wall belongs to a room or to the tunnels
/// between a room and the one before it.
pub open spec fn only_rooms_and_links(m: TileMapView, rooms: Seq<Rect>) -> bool {
    forall|x: int, y: int|
        m.in_bounds(x, y) && #[trigger] m.tile_at(x, y) != TileType::Wall ==> exists|i: int|
            0 <= i < rooms.len() && in_room_or_link(rooms, i, x, y)
}

/// What holds of a level of rooms while it is being built: the rooms fit,
/// do not overlap and are carved, nothing else is carved but the tunnels
/// between them, the border is wall, there are no stairs yet, and every
/// tile that is not a wall can be reached from the center of the first room.
pub open spec fn layout_ok(m: TileMapView, rooms: Seq<Rect>) -> bool {
    &&& m.wf()
    &&& rooms_fit(m, rooms)
    &&& rooms_disjoint(rooms)
    &&& rooms_carved(m, rooms)
    &&& only_rooms_and_links(m, rooms)
    &&& border_is_wall(m)
    &&& no_stairs(m)
    &&& rooms.len() == 0 ==> all_wall(m)
    &&& rooms.len() > 0 ==> m.tiles_connected((rooms[0].center_x(), rooms[0].center_y()))
}

/// The cells of the two straight tunnels that join the center of `from`
/// to the center of `to`: along the row of `from` first if
/// `horizontal_first`, along its column first if not.
pub open spec fn on_link(x: int, y: int, from: Rect, to: Rect, horizontal_first: bool) -> bool {
    if horizontal_first {
        on_corridor(x, y, from.center_x(), from.center_y(), to.center_x(), to.center_y())
    } else {
        on_corridor(y, x, from.center_y(), from.center_x(), to.center_y(), to.center_x())
    }
}

/// A level stays connected when a room is added to it together with the
/// tunnels that link it to the room added before.
proof fn lemma_linked_room_connected(
    before: TileMapView,
    after: TileMapView,
    rooms: Seq<Rect>,
    room: Rect,
    horizontal_first: bool,
)
    requires
        layout_ok(before, rooms),
        room_fits(before, room),
        rooms.len() > 0,
        carved_where(
            before,
            after,
            |x: int, y: int|
                room.covers(x, y) || on_link(x, y, rooms.last(), room, horizontal_first),
        ),
    ensures
        after.tiles_connected((rooms[0].center_x(), rooms[0].center_y())),
{
    let start = (rooms[0].center_x(), rooms[0].center_y());
    let prev = rooms.last();
    let pc = (prev.center_x(), prev.center_y());
    let nc = (room.center_x(), room.center_y());
    lemma_center_covered(prev);
    lemma_center_covered(room);
    assert(room_fits(before, prev));
    assert forall|x: int, y: int| before.walkable(x, y) implies #[trigger] after.walkable(
        x,
        y,
    ) by {
        assert(after.tile_at(x, y) != TileType::Wall);
    }
    // the center of the room added before
    assert(before.tile_at(pc.0, pc.1) != TileType::Wall);
    lemma_carving_keeps_walks(before, after, start, pc);
    let corner: (int, int) = if horizontal_first {
        (nc.0, pc.1)
    } else {
        (pc.0, nc.1)
    };
    // first tunnel: from the old center to the corner
    let (l1, t1, r1, b1) = if horizontal_first {
        (lesser(pc.0, nc.0), pc.1, greater(pc.0, nc.0), pc.1)
    } else {
        (pc.0, lesser(pc.1, nc.1), pc.0, greater(pc.1, nc.1))
    };
    // second tunnel: from the corner to the new center
    let (l2, t2, r2, b2) = if horizontal_first {
        (nc.0, lesser(pc.1, nc.1), nc.0, greater(pc.1, nc.1))
    } else {
        (lesser(pc.0, nc.0), nc.1, greater(pc.0, nc.0), nc.1)
    };
    assert forall|x: int, y: int| in_block(x, y, l1, t1, r1, b1) implies #[trigger] after.walkable(
        x,
        y,
    ) by {
        assert(on_link(x, y, prev, room, horizontal_first));
        assert(after.tile_at(x, y) == TileType::Floor);
    }
    assert forall|x: int, y: int| in_block(x, y, l2, t2, r2, b2) implies #[trigger] after.walkable(
        x,
        y,
    ) by {
        assert(on_link(x, y, prev, room, horizontal_first));
        assert(after.tile_at(x, y) == TileType::Floor);
    }
    assert forall|x: int, y: int|
        in_block(x, y, room.x1 + 1, room.y1 + 1, room.x2 as int, room.y2 as int) implies #[trigger] after.walkable(
    x, y) by {
        assert(room.covers(x, y));
        assert(after.tile_at(x, y) == TileType::Floor);
    }
    lemma_block_reached(after, start, l1, t1, r1, b1, pc, corner);
    lemma_block_reached(after, start, l2, t2, r2, b2, corner, nc);
    assert forall|x: int, y: int|
        after.in_bounds(x, y) && #[trigger] after.tile_at(x, y) != TileType::Wall implies reachable(
        after.walkable_cells(),
        start,
        (x, y),
    ) by {
        if in_block(x, y, l1, t1, r1, b1) {
            lemma_block_reached(after, start, l1, t1, r1, b1, pc, (x, y));
        } else if in_block(x, y, l2, t2, r2, b2) {
            lemma_block_reached(after, start, l2, t2, r2, b2, corner, (x, y));
        } else if room.covers(x, y) {
            lemma_block_reached(
                after,
                start,
                room.x1 + 1,
                room.y1 + 1,
                room.x2 as int,
                room.y2 as int,
                nc,
                (x, y),
            );
        } else {
            assert(!on_link(x, y, prev, room, horizontal_first));
            assert(before.tile_at(x, y) != TileType::Wall);
            lemma_carving_keeps_walks(before, after, start, (x, y));
        }
    }
}

/// Adds a room to a level of rooms: carves it and, unless it is the first,
/// joins its center to the center of the room added before with two
/// straight tunnels, along the row first if `horizontal_first`, along the
/// column first if not.
pub fn add_linked_room(
    map: &mut TileMap,
    rooms: &mut Vec<Rect>,
    room: Rect,
    horizontal_first: bool,
)
    requires
        layout_ok(old(map)@, old(rooms)@),
        room_fits(old(map)@, room),
        forall|i: int| 0 <= i < old(rooms)@.len() ==> !(#[trigger] old(rooms)@[i]).overlaps(room),
    ensures
        final(rooms)@ == old(rooms)@.push(room),
        layout_ok(final(map)@, final(rooms)@),
        old(rooms)@.len() == 0 ==> carved_where(
            old(map)@,
            final(map)@,
            |x: int, y: int| room.covers(x, y),
        ),
        old(rooms)@.len() > 0 ==> carved_where(
            old(map)@,
            final(map)@,
            |x: int, y: int|
                room.covers(x, y) || on_link(x, y, old(rooms)@.last(), room, horizontal_first),
        ),
{
    let ghost before = map@;
    let ghost old_rooms = rooms@;
    apply_room_to_map(map, &room);
    if rooms.len() > 0 {
        let (new_x, new_y) = room.center();
        let (prev_x, prev_y) = rooms[rooms.len() - 1].center();
        if horizontal_first {
            apply_horizontal_tunnel(map, prev_x, new_x, prev_y);
            apply_vertical_tunnel(map, prev_y, new_y, new_x);
        } else {
            apply_vertical_tunnel(map, prev_y, new_y, prev_x);
            apply_horizontal_tunnel(map, prev_x, new_x, new_y);
        }
        proof {
            let prev = old_rooms.last();
            assert(room_fits(before, prev));
            lemma_center_covered(prev);
            lemma_center_covered(room);
            assert(carved_where(
                before,
                map@,
                |x: int, y: int| room.covers(x, y) || on_link(x, y, prev, room, horizontal_first),
            ));
            lemma_linked_room_connected(before, map@, old_rooms, room, horizontal_first);
        }
    } else {
        proof {
            let nc = (room.center_x(), room.center_y());
            lemma_center_covered(room);
            lemma_reachable_self(map@.walkable_cells(), nc);
            assert forall|x: int, y: int|
                in_block(
                    x,
                    y,
                    room.x1 + 1,
                    room.y1 + 1,
                    room.x2 as int,
                    room.y2 as int,
                ) implies #[trigger] map@.walkable(x, y) by {
                assert(room.covers(x, y));
                assert(map@.tile_at(x, y) == TileType::Floor);
            }
            assert forall|x: int, y: int|
                map@.in_bounds(x, y) && #[trigger] map@.tile_at(x, y)
                    != TileType::Wall implies reachable(map@.walkable_cells(), nc, (x, y)) by {
                assert(before.tile_at(x, y) == TileType::Wall);
                assert(room.covers(x, y));
                lemma_block_reached(
                    map@,
                    nc,
                    room.x1 + 1,
                    room.y1 + 1,
                    room.x2 as int,
                    room.y2 as int,
                    nc,
                    (x, y),
                );
            }
        }
    }
    rooms.push(room);
    proof {
        let after = map@;
        let new_rooms = rooms@;
        assert forall|i: int| 0 <= i < new_rooms.len() implies room_fits(
            after,
            #[trigger] new_rooms[i],
        ) by {
            if i < old_rooms.len() {
                assert(new_rooms[i] == old_rooms[i]);
                assert(room_fits(before, old_rooms[i]));
            }
        }
        assert forall|i: int, j: int| 0 <= i < j < new_rooms.len() implies !(
        #[trigger] new_rooms[i]).overlaps(#[trigger] new_rooms[j]) by {
            if j < old_rooms.len() {
                assert(new_rooms[i] == old_rooms[i]);
                assert(new_rooms[j] == old_rooms[j]);
            } else {
                assert(new_rooms[i] == old_rooms[i]);
            }
        }
        assert forall|i: int, x: int, y: int|
            0 <= i < new_rooms.len() && (#[trigger] new_rooms[i]).covers(
                x,
                y,
            ) implies #[trigger] after.tile_at(x, y) != TileType::Wall by {
            if i < old_rooms.len() {
                assert(new_rooms[i] == old_rooms[i]);
                assert(room_fits(before, old_rooms[i]));
                assert(before.tile_at(x, y) != TileType::Wall);
            } else {
                assert(room.covers(x, y));
            }
        }
        assert forall|x: int, y: int|
            after.in_bounds(x, y) && on_border(after, x, y) implies #[trigger] after.tile_at(x, y)
            == TileType::Wall by {
            assert(before.tile_at(x, y) == TileType::Wall);
            if old_rooms.len() > 0 {
                let prev = old_rooms.last();
                assert(room_fits(before, prev));
                lemma_center_covered(prev);
                lemma_center_covered(room);
                assert(!on_link(x, y, prev, room, horizontal_first));
            }
        }
        assert forall|x: int, y: int| after.in_bounds(x, y) implies #[trigger] after.tile_at(x, y)
            != TileType::DownStairs by {
            assert(before.tile_at(x, y) != TileType::DownStairs);
        }
        assert forall|x: int, y: int|
            after.in_bounds(x, y) && #[trigger] after.tile_at(x, y)
                != TileType::Wall implies exists|i: int|
            0 <= i < new_rooms.len() && in_room_or_link(new_rooms, i, x, y) by {
            if before.tile_at(x, y) != TileType::Wall {
                let i = choose|i: int| 0 <= i < old_rooms.len() && in_room_or_link(old_rooms, i, x, y);
                assert(new_rooms[i] == old_rooms[i]);
                if i > 0 {
                    assert(new_rooms[i - 1] == old_rooms[i - 1]);
                }
                assert(in_room_or_link(new_rooms, i, x, y));
            } else {
                let i = old_rooms.len() as int;
                assert(new_rooms[i] == room);
                if i > 0 {
                    assert(new_rooms[i - 1] == old_rooms.last());
                }
                assert(in_room_or_link(new_rooms, i, x, y));
            }
        }
        if old_rooms.len() > 0 {
            assert(new_rooms[0] == old_rooms[0]);
        }
    }
}

/// A finished level of rooms: `blocked` holds the walls, the rooms fit, do
/// not overlap and are carved, nothing else is carved but the tunnels
/// between them, the border is wall, the player starts at the center of the
/// first room, the only stairs lie at the center of the last room, and the
/// player can walk to every tile that is not a wall. The start is a floor
/// tile, unless the level has a single room, whose center then holds the
/// stairs.
pub open spec fn level_of_rooms(m: TileMapView, start: Position, rooms: Seq<Rect>) -> bool {
    &&& m.wf()
    &&& m.blocked_is_walls()
    &&& rooms.len() > 0
    &&& rooms_fit(m, rooms)
    &&& rooms_disjoint(rooms)
    &&& rooms_carved(m, rooms)
    &&& only_rooms_and_links(m, rooms)
    &&& border_is_wall(m)
    &&& start.x == rooms[0].center_x()
    &&& start.y == rooms[0].center_y()
    &&& m.in_bounds(start.x as int, start.y as int)
    &&& m.tile_at(start.x as int, start.y as int) != TileType::Wall
    &&& m.tile_at(start.x as int, start.y as int) == TileType::Floor || single_stairs_at(
        m,
        start.x as int,
        start.y as int,
    )
    &&& rooms.len() >= 2 ==> m.tile_at(start.x as int, start.y as int) == TileType::Floor
    &&& single_stairs_at(m, rooms.last().center_x(), rooms.last().center_y())
    &&& m.fully_connected((start.x as int, start.y as int))
}

/// Turns the floor tile at (x, y) into the down staircase of a level that
/// has none yet.
pub fn place_stairs(map: &mut TileMap, x: i32, y: i32)
    requires
        old(map).wf(),
        old(map)@.in_bounds(x as int, y as int),
        no_stairs(old(map)@),
    ensures
        final(map)@ == (TileMapView { tiles: final(map)@.tiles, ..old(map)@ }),
        final(map)@.tiles.len() == old(map)@.tiles.len(),
        single_stairs_at(final(map)@, x as int, y as int),
        forall|cx: int, cy: int|
            old(map)@.in_bounds(cx, cy) && !(cx == x && cy == y) ==> #[trigger] final(map)@.tile_at(cx, cy) == old(map)@.tile_at(cx, cy),
{
    set_tile(map, x, y, TileType::DownStairs);
    proof {
        let before = old(map)@;
        assert forall|cx: int, cy: int| map@.in_bounds(cx, cy) implies (#[trigger] map@.tile_at(
            cx,
            cy,
        ) == TileType::DownStairs <==> (cx == x && cy == y)) by {
            assert(before.tile_at(cx, cy) != TileType::DownStairs);
        }
    }
}

/// Finishes a level of rooms: the stairs go to the center of the last
/// room, `blocked` is filled in from the tiles, and the player's start is
/// the center of the first room.
pub fn finish_rooms(map: &mut TileMap, rooms: &Vec<Rect>) -> (start: Position)
    requires
        layout_ok(old(map)@, rooms@),
        rooms@.len() > 0,
    ensures
        level_of_rooms(final(map)@, start, rooms@),
        final(map)@ == (TileMapView {
            tiles: final(map)@.tiles,
            blocked: final(map)@.blocked,
            ..old(map)@
        }),
        forall|cx: int, cy: int|
            old(map)@.in_bounds(cx, cy) && !(cx == rooms@.last().center_x() && cy
                == rooms@.last().center_y()) ==> #[trigger] final(map)@.tile_at(cx, cy) == old(map)@.tile_at(cx, cy),
{
    let ghost before = map@;
    let last: Rect = rooms[rooms.len() - 1];
    let first: Rect = rooms[0];
    let (stairs_x, stairs_y) = last.center();
    let (start_x, start_y) = first.center();
    proof {
        assert(room_fits(before, last));
        assert(room_fits(before, first));
        lemma_center_covered(last);
        lemma_center_covered(first);
    }
    place_stairs(map, stairs_x, stairs_y);
    let ghost staired = map@;
    map.populate_blocked();
    proof {
        let after = map@;
        let start = (start_x as int, start_y as int);
        assert(after.tiles == staired.tiles);
        assert(before.tile_at(start.0, start.1) != TileType::Wall);
        assert(before.tile_at(stairs_x as int, stairs_y as int) != TileType::Wall);
        assert forall|x: int, y: int| after.in_bounds(x, y) implies (#[trigger] after.tile_at(x, y)
            == TileType::Wall) == (before.tile_at(x, y) == TileType::Wall) by {
            assert(after.tile_at(x, y) == staired.tile_at(x, y));
        }
        assert forall|x: int, y: int| before.walkable(x, y) implies #[trigger] after.walkable(
            x,
            y,
        ) by {
            assert((after.tile_at(x, y) == TileType::Wall) == (before.tile_at(x, y)
                == TileType::Wall));
        }
        lemma_open_is_walkable(after);
        assert forall|x: int, y: int|
            after.in_bounds(x, y) && #[trigger] after.tile_at(x, y)
                != TileType::Wall implies reachable(after.open_cells(), start, (x, y)) by {
            assert(before.tile_at(x, y) != TileType::Wall);
            lemma_carving_keeps_walks(before, after, start, (x, y));
        }
        assert forall|i: int, x: int, y: int|
            0 <= i < rooms@.len() && (#[trigger] rooms@[i]).covers(
                x,
                y,
            ) implies #[trigger] after.tile_at(x, y) != TileType::Wall by {
            assert(room_fits(before, rooms@[i]));
            assert(before.tile_at(x, y) != TileType::Wall);
        }
        assert forall|x: int, y: int|
            after.in_bounds(x, y) && on_border(after, x, y) implies #[trigger] after.tile_at(x, y)
            == TileType::Wall by {
            assert(before.tile_at(x, y) == TileType::Wall);
        }
        assert forall|x: int, y: int|
            after.in_bounds(x, y) && #[trigger] after.tile_at(x, y)
                != TileType::Wall implies exists|i: int|
            0 <= i < rooms@.len() && in_room_or_link(rooms@, i, x, y) by {
            assert(before.tile_at(x, y) != TileType::Wall);
        }
        assert forall|cx: int, cy: int| after.in_bounds(cx, cy) implies (#[trigger] after.tile_at(
            cx,
            cy,
        ) == TileType::DownStairs <==> (cx == stairs_x && cy == stairs_y)) by {
            assert(after.tile_at(cx, cy) == staired.tile_at(cx, cy));
        }
        if rooms@.len() >= 2 {
            assert(!rooms@[0].overlaps(rooms@[rooms@.len() - 1]));
            lemma_disjoint_rooms_share_no_cell(first, last, start.0, start.1);
            assert(staired.tile_at(start.0, start.1) == before.tile_at(start.0, start.1));
            assert(rooms@[0].covers(start.0, start.1));
            assert(before.tile_at(start.0, start.1) != TileType::DownStairs);
        }
    }
    Position { x: start_x, y: start_y }
}

/// A copy of the map for showing how a level came about: everything on it
/// counts as revealed.
pub open spec fn snapshot_view(m: TileMapView) -> TileMapView {
    TileMapView { revealed_tiles: Seq::new(m.revealed_tiles.len(), |i: int| true), ..m }
}

/// The views of a list of maps.
pub open spec fn map_views(maps: Seq<TileMap>) -> Seq<TileMapView> {
    Seq::new(maps.len(), |i: int| maps[i]@)
}

/// Keeps copies of a map as it is being built, for the step-by-step
/// display of the generator. A recorder that is not enabled keeps nothing.
pub struct SnapshotRecorder {
    pub enabled: bool,
    pub history: Vec<TileMap>,
}

impl SnapshotRecorder {
    pub fn new(enabled: bool) -> (recorder: SnapshotRecorder)
        ensures
            recorder.enabled == enabled,
            recorder.history@.len() == 0,
    {
        SnapshotRecorder { enabled, history: Vec::new() }
    }

    /// Appends a fully revealed copy of `map` to the history, if enabled.
    pub fn record(&mut self, map: &TileMap)
        ensures
            final(self).enabled == old(self).enabled,
            old(self).enabled ==> map_views(final(self).history@) == map_views(
                old(self).history@,
            ).push(snapshot_view(map@)),
            !old(self).enabled ==> final(self).history@ == old(self).history@,
    {
        if self.enabled {
            let mut snapshot: TileMap = map.clone();
            let n: usize = snapshot.revealed_tiles.len();
            let mut i: usize = 0;
            while i < n
                invariant
                    i <= n,
                    n == snapshot.revealed_tiles@.len(),
                    n == map@.revealed_tiles.len(),
                    snapshot@ == (TileMapView { revealed_tiles: snapshot@.revealed_tiles, ..map@ }),
                    forall|j: int| 0 <= j < i ==> #[trigger] snapshot.revealed_tiles@[j],
                decreases n - i,
            {
                snapshot.revealed_tiles.set(i, true);
                i += 1;
            }
            assert(snapshot@.revealed_tiles =~= Seq::new(
                map@.revealed_tiles.len(),
                |i: int| true,
            ));
            self.history.push(snapshot);
            assert(map_views(self.history@) =~= map_views(old(self).history@).push(
                snapshot_view(map@),
            ));
        }
    }

    /// A copy of every snapshot taken so far, oldest first.
    pub fn snapshots(&self) -> (copies: Vec<TileMap>)
        ensures
            map_views(copies@) == map_views(self.history@),
    {
        let mut copies: Vec<TileMap> = Vec::new();
        let mut i: usize = 0;
        while i < self.history.len()
            invariant
                i <= self.history@.len(),
                copies@.len() == i,
                forall|j: int| 0 <= j < i ==> (#[trigger] copies@[j])@ == self.history@[j]@,
            decreases self.history@.len() - i,
        {
            copies.push(self.history[i].clone());
            i += 1;
        }
        assert(map_views(copies@) =~= map_views(self.history@));
        copies
    }
}

} // verus!
