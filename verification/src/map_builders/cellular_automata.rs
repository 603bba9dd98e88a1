use crate::dice::roll_die;
use crate::flood::{cull_unreached, flood_fill, lemma_cull_connects, marked};
use crate::map::{
    blank_level, is_inbounds, lemma_cell_index_bounds, lemma_index_round_trip, squared_distance,
    Position, TileMap, TileMapView, TileType,
};
use crate::map_builders::common::{
    all_wall, border_is_wall, map_views, no_stairs, on_border, place_stairs, set_tile,
    single_stairs_at, snapshot_view, SnapshotRecorder,
};
use crate::map_builders::SHOW_MAPGEN_VISUALIZER;
use crate::reach::{lemma_carving_keeps_walks, lemma_open_is_walkable, reachable};
use crate::rect::Rect;
use crate::spawner::{
    depth_in_range, label_in_table, lemma_share_is_kept, room_has_share, room_lines, spawn_room,
};
use std::collections::HashMap;
use vstd::prelude::*;

verus! {

/// Out of a hundred cells, how many start out as wall.
pub const WALL_CHANCE: i32 = 55;

/// How many times the cave is smoothed.
pub const SMOOTHING_PASSES: i32 = 15;

/// Width of the sectors into which a cave is cut for placing things.
pub const SECTOR_WIDTH: i32 = 16;

/// Height of the sectors into which a cave is cut for placing things.
pub const SECTOR_HEIGHT: i32 = 10;

/// Builds a cave: noise, smoothed again and again by a rule on the
/// neighbours of each cell, with everything walled up that the player
/// cannot reach.
pub struct CellularAutomataBuilder {
    pub map: TileMap,
    pub starting_position: Position,
    pub depth: i32,
    pub recorder: SnapshotRecorder,
}

/// (x, y) lies inside the grid and not on its border.
pub open spec fn interior(m: TileMapView, x: int, y: int) -> bool {
    1 <= x <= m.width - 2 && 1 <= y <= m.height - 2
}

/// The tile that a cell starts with, by the roll of a hundred-sided die.
pub open spec fn initial_tile_for(roll: int) -> TileType {
    if roll > WALL_CHANCE {
        TileType::Floor
    } else {
        TileType::Wall
    }
}

pub open spec fn wall_or_outside(m: TileMapView, x: int, y: int) -> bool {
    !m.in_bounds(x, y) || m.tile_at(x, y) == TileType::Wall
}

pub open spec fn one_if(b: bool) -> int {
    if b {
        1
    } else {
        0
    }
}

/// How many of the eight neighbours of (x, y) are wall; a neighbour
/// outside the grid counts as wall.
pub open spec fn wall_neighbours(m: TileMapView, x: int, y: int) -> int {
    one_if(wall_or_outside(m, x - 1, y)) + one_if(wall_or_outside(m, x + 1, y)) + one_if(
        wall_or_outside(m, x, y - 1),
    ) + one_if(wall_or_outside(m, x, y + 1)) + one_if(wall_or_outside(m, x - 1, y - 1)) + one_if(
        wall_or_outside(m, x + 1, y - 1),
    ) + one_if(wall_or_outside(m, x - 1, y + 1)) + one_if(wall_or_outside(m, x + 1, y + 1))
}

/// The rule of the cave: a cell with more than four walls around it, or
/// with none, becomes wall; every other cell becomes floor.
pub open spec fn smoothed_tile(m: TileMapView, x: int, y: int) -> TileType {
    let n = wall_neighbours(m, x, y);
    if n > 4 || n == 0 {
        TileType::Wall
    } else {
        TileType::Floor
    }
}

/// `after` is `before` with the rule applied once to every interior cell
/// at the same time; the border and everything but the tiles stay.
pub open spec fn smoothed(before: TileMapView, after: TileMapView) -> bool {
    &&& after == (TileMapView { tiles: after.tiles, ..before })
    &&& after.tiles.len() == before.tiles.len()
    &&& forall|x: int, y: int|
        before.in_bounds(x, y) ==> #[trigger] after.tile_at(x, y) == if interior(before, x, y) {
            smoothed_tile(before, x, y)
        } else {
            before.tile_at(x, y)
        }
}

/// `after` is `before` with every interior cell set to wall or floor; the
/// border and everything but the tiles stay.
pub open spec fn noise_filled(before: TileMapView, after: TileMapView) -> bool {
    &&& after == (TileMapView { tiles: after.tiles, ..before })
    &&& after.tiles.len() == before.tiles.len()
    &&& forall|x: int, y: int|
        before.in_bounds(x, y) ==> if interior(before, x, y) {
            #[trigger] after.tile_at(x, y) == TileType::Wall || after.tile_at(x, y)
                == TileType::Floor
        } else {
            after.tile_at(x, y) == before.tile_at(x, y)
        }
}

/// The tile at `best` is the floor tile nearest to the tile at `target`;
/// of several at the same distance it is the one with the lowest index.
pub open spec fn nearest_floor_is(m: TileMapView, target: int, best: int) -> bool {
    &&& 0 <= best < m.tiles.len()
    &&& m.tiles[best] == TileType::Floor
    &&& forall|j: int|
        0 <= j < m.tiles.len() && #[trigger] m.tiles[j] == TileType::Floor ==> m.distance2(
            best,
            target,
        ) < m.distance2(j, target) || (m.distance2(best, target) == m.distance2(j, target)
            && best <= j)
}

/// A tile counts for the stairs if it is marked and not a wall.
pub open spec fn stairs_candidate(m: TileMapView, flags: Seq<bool>, i: int) -> bool {
    0 <= i < m.tiles.len() && flags[i] && m.tiles[i] != TileType::Wall
}

/// The tile at `best` is the candidate farthest from the tile at `origin`;
/// of several at the same distance it is the one with the lowest index.
pub open spec fn farthest_candidate_is(
    m: TileMapView,
    flags: Seq<bool>,
    origin: int,
    best: int,
) -> bool {
    &&& stairs_candidate(m, flags, best)
    &&& forall|j: int| #[trigger]
        stairs_candidate(m, flags, j) ==> m.distance2(j, origin) < m.distance2(best, origin) || (
        m.distance2(j, origin) == m.distance2(best, origin) && best <= j)
}

/// The stairs of the level lie at (sx, sy), and no tile that is not a
/// wall lies farther from the start.
pub open spec fn stairs_farthest(m: TileMapView, start: Position, sx: int, sy: int) -> bool {
    &&& single_stairs_at(m, sx, sy)
    &&& forall|x: int, y: int|
        m.in_bounds(x, y) && #[trigger] m.tile_at(x, y) != TileType::Wall ==> squared_distance(
            x,
            y,
            start.x as int,
            start.y as int,
        ) <= squared_distance(sx, sy, start.x as int, start.y as int)
}

/// (left, top) is the first cell of a sector of the map.
pub open spec fn sector_corner(m: TileMapView, left: int, top: int) -> bool {
    &&& 0 <= left < m.width
    &&& left % (SECTOR_WIDTH as int) == 0
    &&& 0 <= top < m.height
    &&& top % (SECTOR_HEIGHT as int) == 0
}

/// The sector that begins at (left, top), as a room whose inside is the
/// sector: it ends where the next sector begins, or at the edge of the map.
pub open spec fn sector_at(m: TileMapView, left: int, top: int) -> Rect {
    Rect {
        x1: (left - 1) as i32,
        y1: (top - 1) as i32,
        x2: (if m.width - left > SECTOR_WIDTH {
            left + SECTOR_WIDTH
        } else {
            m.width
        }) as i32,
        y2: (if m.height - top > SECTOR_HEIGHT {
            top + SECTOR_HEIGHT
        } else {
            m.height
        }) as i32,
    }
}

/// No tile but the one at (x, y) is anything but wall.
pub open spec fn only_open_tile(m: TileMapView, x: int, y: int) -> bool {
    forall|cx: int, cy: int|
        m.in_bounds(cx, cy) && #[trigger] m.tile_at(cx, cy) != TileType::Wall ==> cx == x && cy
            == y
}

/// A finished cave: `blocked` holds the walls, the border is wall, the
/// player can walk from the start to every tile that is no wall, and the
/// only stairs lie as far from the start as any tile does. The start is a
/// floor tile, unless it is the only tile of the cave that is no wall: then
/// it holds the stairs.
pub open spec fn level_of_caves(m: TileMapView, start: Position) -> bool {
    &&& m.wf()
    &&& m.blocked_is_walls()
    &&& border_is_wall(m)
    &&& m.in_bounds(start.x as int, start.y as int)
    &&& m.tile_at(start.x as int, start.y as int) != TileType::Wall
    &&& m.tile_at(start.x as int, start.y as int) == TileType::Floor || single_stairs_at(
        m,
        start.x as int,
        start.y as int,
    )
    &&& m.tile_at(start.x as int, start.y as int) == TileType::Floor || only_open_tile(
        m,
        start.x as int,
        start.y as int,
    )
    &&& m.fully_connected((start.x as int, start.y as int))
    &&& exists|sx: int, sy: int| stairs_farthest(m, start, sx, sy)
}

/// The tile that a cell starts with, by the roll of a hundred-sided die.
pub fn initial_tile(roll: i32) -> (tile: TileType)
    ensures
        tile == initial_tile_for(roll as int),
{
    if roll > WALL_CHANCE {
        TileType::Floor
    } else {
        TileType::Wall
    }
}

fn is_interior(map: &TileMap, x: i32, y: i32) -> (inside: bool)
    requires
        map.wf(),
    ensures
        inside == interior(map@, x as int, y as int),
{
    1 <= x && x <= map.width - 2 && 1 <= y && y <= map.height - 2
}

/// Sets every interior cell to wall or floor as the dice fall.
pub fn fill_at_random(map: &mut TileMap, rng: &mut rltk::RandomNumberGenerator)
    requires
        old(map).wf(),
    ensures
        noise_filled(old(map)@, final(map)@),
{
    let n: usize = map.tiles.len();
    let mut next: Vec<TileType> = Vec::new();
    let mut i: usize = 0;
    while i < n
        invariant
            *map == *old(map),
            map.wf(),
            n == map.tiles@.len(),
            i <= n,
            next@.len() == i,
            forall|j: int|
                0 <= j < i ==> if interior(map@, j % map@.width, j / map@.width) {
                    #[trigger] next@[j] == TileType::Wall || next@[j] == TileType::Floor
                } else {
                    next@[j] == map.tiles@[j]
                },
        decreases n - i,
    {
        let cell: Position = map.idx_xy(i);
        let tile: TileType = if is_interior(map, cell.x, cell.y) {
            initial_tile(roll_die(rng, 100))
        } else {
            map.tiles[i]
        };
        next.push(tile);
        i += 1;
    }
    map.tiles = next;
    proof {
        let before = old(map)@;
        let after = map@;
        assert forall|x: int, y: int| before.in_bounds(x, y) implies if interior(before, x, y) {
            #[trigger] after.tile_at(x, y) == TileType::Wall || after.tile_at(x, y)
                == TileType::Floor
        } else {
            after.tile_at(x, y) == before.tile_at(x, y)
        } by {
            lemma_cell_index_bounds(before.width, before.height, x, y);
            lemma_index_round_trip(before.width, before.height, x, y);
        }
    }
}

fn is_wall_or_outside(map: &TileMap, x: i32, y: i32) -> (yes: bool)
    requires
        map.wf(),
    ensures
        yes == wall_or_outside(map@, x as int, y as int),
{
    if !is_inbounds(map, x, y) {
        return true;
    }
    let idx: usize = map.xy_idx(x, y);
    map.tiles[idx] == TileType::Wall
}

fn count_if(yes: bool) -> (n: u8)
    ensures
        n == one_if(yes),
{
    if yes {
        1
    } else {
        0
    }
}

/// How many of the eight neighbours of (x, y) are wall.
pub fn count_wall_neighbours(map: &TileMap, x: i32, y: i32) -> (n: u8)
    requires
        map.wf(),
        map@.in_bounds(x as int, y as int),
    ensures
        n == wall_neighbours(map@, x as int, y as int),
{
    count_if(is_wall_or_outside(map, x - 1, y)) + count_if(is_wall_or_outside(map, x + 1, y))
        + count_if(is_wall_or_outside(map, x, y - 1)) + count_if(
        is_wall_or_outside(map, x, y + 1),
    ) + count_if(is_wall_or_outside(map, x - 1, y - 1)) + count_if(
        is_wall_or_outside(map, x + 1, y - 1),
    ) + count_if(is_wall_or_outside(map, x - 1, y + 1)) + count_if(
        is_wall_or_outside(map, x + 1, y + 1),
    )
}

/// Applies the rule of the cave once, to every interior cell at the same
/// time.
pub fn smooth(map: &mut TileMap)
    requires
        old(map).wf(),
    ensures
        smoothed(old(map)@, final(map)@),
{
    let n: usize = map.tiles.len();
    let mut next: Vec<TileType> = Vec::new();
    let mut i: usize = 0;
    while i < n
        invariant
            *map == *old(map),
            map.wf(),
            n == map.tiles@.len(),
            i <= n,
            next@.len() == i,
            forall|j: int|
                0 <= j < i ==> #[trigger] next@[j] == if interior(
                    map@,
                    j % map@.width,
                    j / map@.width,
                ) {
                    smoothed_tile(map@, j % map@.width, j / map@.width)
                } else {
                    map.tiles@[j]
                },
        decreases n - i,
    {
        let cell: Position = map.idx_xy(i);
        let tile: TileType = if is_interior(map, cell.x, cell.y) {
            let walls: u8 = count_wall_neighbours(map, cell.x, cell.y);
            if walls > 4 || walls == 0 {
                TileType::Wall
            } else {
                TileType::Floor
            }
        } else {
            map.tiles[i]
        };
        next.push(tile);
        i += 1;
    }
    map.tiles = next;
    proof {
        let before = old(map)@;
        let after = map@;
        assert forall|x: int, y: int| before.in_bounds(x, y) implies #[trigger] after.tile_at(x, y)
            == if interior(before, x, y) {
            smoothed_tile(before, x, y)
        } else {
            before.tile_at(x, y)
        } by {
            lemma_cell_index_bounds(before.width, before.height, x, y);
            lemma_index_round_trip(before.width, before.height, x, y);
        }
    }
}

/// The index of the floor tile nearest to the tile at `target`, if the
/// map has any floor.
pub fn nearest_floor(map: &TileMap, target: usize) -> (found: Option<usize>)
    requires
        map.wf(),
        target < map.tiles@.len(),
    ensures
        match found {
            Some(best) => nearest_floor_is(map@, target as int, best as int),
            None => forall|j: int|
                0 <= j < map.tiles@.len() ==> #[trigger] map.tiles@[j] != TileType::Floor,
        },
{
    let n: usize = map.tiles.len();
    let mut found: Option<usize> = None;
    let mut least: u64 = 0;
    let mut i: usize = 0;
    while i < n
        invariant
            map.wf(),
            n == map.tiles@.len(),
            target < n,
            i <= n,
            match found {
                Some(best) => best < i && map.tiles@[best as int] == TileType::Floor && least
                    == map@.distance2(best as int, target as int) && forall|j: int|
                    0 <= j < i && #[trigger] map.tiles@[j] == TileType::Floor ==> map@.distance2(
                        best as int,
                        target as int,
                    ) < map@.distance2(j, target as int) || (map@.distance2(
                        best as int,
                        target as int,
                    ) == map@.distance2(j, target as int) && best <= j),
                None => forall|j: int|
                    0 <= j < i ==> #[trigger] map.tiles@[j] != TileType::Floor,
            },
        decreases n - i,
    {
        if map.tiles[i] == TileType::Floor {
            let d: u64 = map.get_pathing_distance_squared(i, target);
            let better: bool = match found {
                Some(_) => d < least,
                None => true,
            };
            if better {
                found = Some(i);
                least = d;
            }
        }
        i += 1;
    }
    found
}

/// The index of the stairs candidate farthest from the tile at `origin`.
pub fn farthest_marked(map: &TileMap, flags: &Vec<bool>, origin: usize) -> (best: usize)
    requires
        map.wf(),
        flags@.len() == map.tiles@.len(),
        stairs_candidate(map@, flags@, origin as int),
    ensures
        farthest_candidate_is(map@, flags@, origin as int, best as int),
{
    let n: usize = map.tiles.len();
    let mut best: usize = origin;
    let mut most: u64 = map.get_pathing_distance_squared(origin, origin);
    let mut i: usize = 0;
    while i < n
        invariant
            map.wf(),
            n == map.tiles@.len(),
            n == flags@.len(),
            origin < n,
            i <= n,
            stairs_candidate(map@, flags@, best as int),
            most == map@.distance2(best as int, origin as int),
            best < i || best == origin,
            forall|j: int|
                0 <= j < i && #[trigger] stairs_candidate(map@, flags@, j) ==> map@.distance2(
                    j,
                    origin as int,
                ) < most || (map@.distance2(j, origin as int) == most && best <= j),
        decreases n - i,
    {
        if flags[i] && map.tiles[i] != TileType::Wall {
            let d: u64 = map.get_pathing_distance_squared(i, origin);
            if d > most || (d == most && i < best) {
                best = i;
                most = d;
            }
        }
        i += 1;
    }
    best
}

impl CellularAutomataBuilder {
    pub fn new(new_depth: i32) -> (builder: CellularAutomataBuilder)
        ensures
            builder.map@ == blank_level(new_depth as int),
            builder.starting_position == (Position { x: 0, y: 0 }),
            builder.depth == new_depth,
            builder.recorder.enabled == SHOW_MAPGEN_VISUALIZER,
            builder.recorder.history@.len() == 0,
    {
        CellularAutomataBuilder {
            map: TileMap::new(new_depth),
            starting_position: Position { x: 0, y: 0 },
            depth: new_depth,
            recorder: SnapshotRecorder::new(SHOW_MAPGEN_VISUALIZER),
        }
    }

    /// Builds the level afresh: fills the interior with noise, smooths it
    /// `SMOOTHING_PASSES` times, starts the player on the floor tile
    /// nearest to the middle of the map, walls up what cannot be reached
    /// from there, and puts the stairs on the tile farthest from the start.
    /// A map that the smoothing left without any floor gets one floor tile
    /// in its middle.
    pub fn build_map(&mut self, rng: &mut rltk::RandomNumberGenerator)
        ensures
            level_of_caves(final(self).map@, final(self).starting_position),
            final(self).map@ == (TileMapView {
                tiles: final(self).map@.tiles,
                blocked: final(self).map@.blocked,
                ..blank_level(old(self).depth as int)
            }),
            final(self).depth == old(self).depth,
            final(self).recorder.enabled == old(self).recorder.enabled,
            map_views(old(self).recorder.history@).is_prefix_of(
                map_views(final(self).recorder.history@),
            ),
            final(self).recorder.enabled ==> map_views(final(self).recorder.history@).len() > 0
                && map_views(final(self).recorder.history@).last() == snapshot_view(
                final(self).map@,
            ),
    {
        self.map = TileMap::new(self.depth);
        let ghost blank = self.map@;
        let ghost history = map_views(old(self).recorder.history@);
        fill_at_random(&mut self.map, rng);
        self.recorder.record(&self.map);
        proof {
            assert(all_wall(blank));
            lemma_border_kept(blank, self.map@);
        }
        let mut pass: i32 = 0;
        while pass < SMOOTHING_PASSES
            invariant
                0 <= pass <= SMOOTHING_PASSES,
                blank == blank_level(self.depth as int),
                self.depth == old(self).depth,
                self.map@ == (TileMapView { tiles: self.map@.tiles, ..blank }),
                self.map.wf(),
                border_is_wall(self.map@),
                no_stairs(self.map@),
                self.recorder.enabled == old(self).recorder.enabled,
                history.is_prefix_of(map_views(self.recorder.history@)),
            decreases SMOOTHING_PASSES - pass,
        {
            let ghost before = self.map@;
            smooth(&mut self.map);
            self.recorder.record(&self.map);
            proof {
                lemma_border_kept(before, self.map@);
            }
            pass += 1;
        }
        let middle_x: i32 = self.map.width / 2;
        let middle_y: i32 = self.map.height / 2;
        let middle: usize = self.map.xy_idx(middle_x, middle_y);
        let start_idx: usize = match nearest_floor(&self.map, middle) {
            Some(idx) => idx,
            None => {
                let ghost before = self.map@;
                set_tile(&mut self.map, middle_x, middle_y, TileType::Floor);
                proof {
                    lemma_border_kept(before, self.map@);
                }
                middle
            },
        };
        let start: Position = self.map.idx_xy(start_idx);
        self.starting_position = start;
        let ghost primed = self.map@;
        proof {
            assert(primed.tiles[start_idx as int] == TileType::Floor) by {
                lemma_cell_index_bounds(primed.width, primed.height, middle_x as int, middle_y as int);
            }
            assert(primed.tile_at(start.x as int, start.y as int) == TileType::Floor);
            assert(border_is_wall(primed));
            assert(no_stairs(primed));
        }
        self.map.populate_blocked();
        let ghost open = self.map@;
        proof {
            assert(open.tiles == primed.tiles);
            assert forall|x: int, y: int| open.in_bounds(x, y) implies #[trigger] open.tile_at(
                x,
                y,
            ) == primed.tile_at(x, y) by {}
        }
        let flags: Vec<bool> = flood_fill(&self.map, start.x, start.y);
        cull_unreached(&mut self.map, &flags);
        self.recorder.record(&self.map);
        let ghost tidy = self.map@;
        proof {
            lemma_cull_connects(open, tidy, flags@, (start.x as int, start.y as int));
            crate::reach::lemma_reachable_self(
                open.open_cells(),
                (start.x as int, start.y as int),
            );
            assert(marked(open, flags@, start.x as int, start.y as int));
            assert(open.tile_at(start.x as int, start.y as int) == TileType::Floor);
            assert(tidy.tile_at(start.x as int, start.y as int) == TileType::Floor);
            assert forall|x: int, y: int|
                tidy.in_bounds(x, y) && on_border(tidy, x, y) implies #[trigger] tidy.tile_at(x, y)
                == TileType::Wall by {
                assert(primed.tile_at(x, y) == TileType::Wall);
                assert(open.tile_at(x, y) == TileType::Wall);
            }
            assert forall|x: int, y: int| tidy.in_bounds(x, y) implies #[trigger] tidy.tile_at(x, y)
                != TileType::DownStairs by {
                assert(primed.tile_at(x, y) != TileType::DownStairs);
                assert(open.tile_at(x, y) != TileType::DownStairs);
            }
        }
        let stairs_idx: usize = farthest_marked(&self.map, &flags, start_idx);
        let stairs: Position = self.map.idx_xy(stairs_idx);
        place_stairs(&mut self.map, stairs.x, stairs.y);
        let ghost staired = self.map@;
        self.map.populate_blocked();
        self.recorder.record(&self.map);
        proof {
            let after = self.map@;
            let s = (start.x as int, start.y as int);
            assert(after.tiles == staired.tiles);
            assert forall|x: int, y: int| after.in_bounds(x, y) implies (#[trigger] after.tile_at(
                x,
                y,
            ) == TileType::Wall) == (tidy.tile_at(x, y) == TileType::Wall) by {
                assert(after.tile_at(x, y) == staired.tile_at(x, y));
            }
            assert forall|x: int, y: int| tidy.walkable(x, y) implies #[trigger] after.walkable(
                x,
                y,
            ) by {
                assert((after.tile_at(x, y) == TileType::Wall) == (tidy.tile_at(x, y)
                    == TileType::Wall));
            }
            lemma_open_is_walkable(after);
            assert forall|x: int, y: int|
                after.in_bounds(x, y) && #[trigger] after.tile_at(x, y)
                    != TileType::Wall implies reachable(after.open_cells(), s, (x, y)) by {
                assert(tidy.tile_at(x, y) != TileType::Wall);
                lemma_carving_keeps_walks(tidy, after, s, (x, y));
            }
            assert forall|x: int, y: int|
                after.in_bounds(x, y) && on_border(after, x, y) implies #[trigger] after.tile_at(
                x,
                y,
            ) == TileType::Wall by {
                assert(tidy.tile_at(x, y) == TileType::Wall);
            }
            assert forall|cx: int, cy: int| after.in_bounds(cx, cy) implies (#[trigger] after.tile_at(
                cx,
                cy,
            ) == TileType::DownStairs <==> (cx == stairs.x && cy == stairs.y)) by {
                assert(after.tile_at(cx, cy) == staired.tile_at(cx, cy));
            }
            assert forall|x: int, y: int|
                after.in_bounds(x, y) && #[trigger] after.tile_at(x, y)
                    != TileType::Wall implies squared_distance(x, y, s.0, s.1) <= squared_distance(
                stairs.x as int,
                stairs.y as int,
                s.0,
                s.1,
            ) by {
                assert(tidy.tile_at(x, y) != TileType::Wall);
                lemma_cell_index_bounds(tidy.width, tidy.height, x, y);
                lemma_index_round_trip(tidy.width, tidy.height, x, y);
                let j = tidy.index(x, y);
                assert(tidy.tiles[j] != TileType::Wall);
                assert(flags@[j]);
                assert(stairs_candidate(tidy, flags@, j));
            }
            assert(stairs_farthest(after, start, stairs.x as int, stairs.y as int));
            if after.tile_at(s.0, s.1) != TileType::Floor {
                assert(stairs.x == start.x && stairs.y == start.y);
                assert(stairs_idx == start_idx);
                assert forall|cx: int, cy: int|
                    after.in_bounds(cx, cy) && #[trigger] after.tile_at(cx, cy)
                        != TileType::Wall implies cx == s.0 && cy == s.1 by {
                    assert(tidy.tile_at(cx, cy) != TileType::Wall);
                    lemma_cell_index_bounds(tidy.width, tidy.height, cx, cy);
                    lemma_index_round_trip(tidy.width, tidy.height, cx, cy);
                    lemma_index_round_trip(tidy.width, tidy.height, s.0, s.1);
                    let j = tidy.index(cx, cy);
                    assert(stairs_candidate(tidy, flags@, j));
                    lemma_no_distance_same_cell(cx, cy, s.0, s.1);
                }
            }
        }
    }

    /// Plans what goes where in the cave. The map is cut into sectors of
    /// `SECTOR_WIDTH` by `SECTOR_HEIGHT` tiles, and every sector gets its
    /// share of monsters, items and traps, each on a floor tile of its own:
    /// at least what the lowest roll of the die gives it at this depth.
    pub fn spawn_entities(&self, rng: &mut rltk::RandomNumberGenerator) -> (plan: HashMap<
        usize,
        String,
    >)
        requires
            self.map.wf(),
            depth_in_range(self.depth as int),
        ensures
            plan@.dom().finite(),
            forall|k: usize| #[trigger]
                plan@.contains_key(k) ==> k < self.map.tiles@.len() && self.map.tiles@[k as int]
                    == TileType::Floor && label_in_table(
                    plan@[k]@,
                    room_lines(self.depth as int),
                    self.depth as int,
                ),
            forall|left: int, top: int|
                sector_corner(self.map@, left, top) ==> room_has_share(
                    plan@,
                    self.map@,
                    #[trigger] sector_at(self.map@, left, top),
                    self.depth as int,
                ),
    {
        let mut plan: HashMap<usize, String> = HashMap::new();
        let mut top: i32 = 0;
        while top < self.map.height
            invariant
                self.map.wf(),
                depth_in_range(self.depth as int),
                0 <= top <= self.map.height,
                top % SECTOR_HEIGHT == 0 || top == self.map.height,
                forall|l: int, t: int|
                    sector_corner(self.map@, l, t) && t < top ==> room_has_share(
                        plan@,
                        self.map@,
                        #[trigger] sector_at(self.map@, l, t),
                        self.depth as int,
                    ),
                plan@.dom().finite(),
                forall|k: usize| #[trigger]
                    plan@.contains_key(k) ==> k < self.map.tiles@.len()
                        && self.map.tiles@[k as int] == TileType::Floor && label_in_table(
                        plan@[k]@,
                        room_lines(self.depth as int),
                        self.depth as int,
                    ),
            decreases self.map.height - top,
        {
            let bottom: i32 = if self.map.height - top > SECTOR_HEIGHT {
                top + SECTOR_HEIGHT
            } else {
                self.map.height
            };
            let mut left: i32 = 0;
            while left < self.map.width
                invariant
                    self.map.wf(),
                    depth_in_range(self.depth as int),
                    0 <= top < bottom <= self.map.height,
                    0 <= left <= self.map.width,
                    top % SECTOR_HEIGHT == 0,
                    bottom == sector_at(self.map@, 0, top as int).y2,
                    left % SECTOR_WIDTH == 0 || left == self.map.width,
                    forall|l: int, t: int|
                        sector_corner(self.map@, l, t) && (t < top || (t == top && l < left))
                            ==> room_has_share(
                            plan@,
                            self.map@,
                            #[trigger] sector_at(self.map@, l, t),
                            self.depth as int,
                        ),
                    plan@.dom().finite(),
                    forall|k: usize| #[trigger]
                        plan@.contains_key(k) ==> k < self.map.tiles@.len()
                            && self.map.tiles@[k as int] == TileType::Floor && label_in_table(
                            plan@[k]@,
                            room_lines(self.depth as int),
                            self.depth as int,
                        ),
                decreases self.map.width - left,
            {
                let right: i32 = if self.map.width - left > SECTOR_WIDTH {
                    left + SECTOR_WIDTH
                } else {
                    self.map.width
                };
                let sector: Rect = Rect { x1: left - 1, y1: top - 1, x2: right, y2: bottom };
                let ghost before = plan@;
                spawn_room(&mut plan, &self.map, &sector, self.depth, rng);
                proof {
                    let m = self.map@;
                    assert(sector == sector_at(m, left as int, top as int));
                    assert forall|l: int, t: int|
                        sector_corner(m, l, t) && (t < top || (t == top && l < right))
                        implies room_has_share(
                        plan@,
                        m,
                        #[trigger] sector_at(m, l, t),
                        self.depth as int,
                    ) by {
                        if t < top || l < left {
                            lemma_share_is_kept(
                                before,
                                plan@,
                                m,
                                sector_at(m, l, t),
                                self.depth as int,
                            );
                        } else {
                            assert(l == left);
                        }
                    }
                }
                left = right;
            }
            top = bottom;
        }
        plan
    }

    /// A copy of the level.
    pub fn get_map(&self) -> (map: TileMap)
        ensures
            map@ == self.map@,
    {
        self.map.clone()
    }

    /// Where the player starts.
    pub fn get_starting_position(&self) -> (start: Position)
        ensures
            start == self.starting_position,
    {
        self.starting_position
    }

    /// A copy of the snapshots taken while the level was built.
    pub fn get_snapshot_history(&self) -> (history: Vec<TileMap>)
        ensures
            map_views(history@) == map_views(self.recorder.history@),
    {
        self.recorder.snapshots()
    }

    /// Records the level as it stands.
    pub fn take_snapshot(&mut self)
        ensures
            final(self).map == old(self).map,
            final(self).starting_position == old(self).starting_position,
            final(self).depth == old(self).depth,
            final(self).recorder.enabled == old(self).recorder.enabled,
            old(self).recorder.enabled ==> map_views(final(self).recorder.history@) == map_views(
                old(self).recorder.history@,
            ).push(snapshot_view(old(self).map@)),
            !old(self).recorder.enabled ==> final(self).recorder.history@ == old(
                self,
            ).recorder.history@,
    {
        self.recorder.record(&self.map);
    }
}

/// Two cells without any distance between them are the same cell.
proof fn lemma_no_distance_same_cell(x1: int, y1: int, x2: int, y2: int)
    requires
        squared_distance(x1, y1, x2, y2) <= 0,
    ensures
        x1 == x2,
        y1 == y2,
{
    let dx = x1 - x2;
    let dy = y1 - y2;
    assert(dx * dx >= 0 && (dx != 0 ==> dx * dx > 0)) by (nonlinear_arith);
    assert(dy * dy >= 0 && (dy != 0 ==> dy * dy > 0)) by (nonlinear_arith);
}

/// A step that changes interior cells only, and sets them to wall or
/// floor, keeps the border wall and brings no stairs.
proof fn lemma_border_kept(before: TileMapView, after: TileMapView)
    requires
        before.wf(),
        border_is_wall(before),
        no_stairs(before),
        after == (TileMapView { tiles: after.tiles, ..before }),
        after.tiles.len() == before.tiles.len(),
        forall|x: int, y: int|
            before.in_bounds(x, y) ==> if interior(before, x, y) {
                #[trigger] after.tile_at(x, y) == TileType::Wall || after.tile_at(x, y)
                    == TileType::Floor
            } else {
                after.tile_at(x, y) == before.tile_at(x, y)
            },
    ensures
        border_is_wall(after),
        no_stairs(after),
{
    assert forall|x: int, y: int|
        after.in_bounds(x, y) && on_border(after, x, y) implies #[trigger] after.tile_at(x, y)
        == TileType::Wall by {
        assert(before.tile_at(x, y) == TileType::Wall);
    }
    assert forall|x: int, y: int| after.in_bounds(x, y) implies #[trigger] after.tile_at(x, y)
        != TileType::DownStairs by {
        assert(before.tile_at(x, y) != TileType::DownStairs);
    }
}

} // verus!
