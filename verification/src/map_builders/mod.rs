use crate::dice::roll_die;
use crate::map::{blank_level, Position, TileMap, TileMapView, TileType};
use crate::map_builders::bsp_dungeon::{room_in_part, BspDungeonBuilder};
use crate::map_builders::bsp_interiors::{room_of_part, BspInteriorBuilder};
use crate::map_builders::cellular_automata::{
    level_of_caves, sector_at, sector_corner, CellularAutomataBuilder,
};
use crate::map_builders::partition::partitions;
use crate::map_builders::simple_map::{room_has_size, MAX_ROOMS};
use crate::rect::Rect;
use crate::map_builders::common::{
    border_is_wall, level_of_rooms, map_views, single_stairs_at, snapshot_view,
};
use crate::map_builders::simple_map::SimpleMapBuilder;
use crate::spawner::{depth_in_range, label_in_table, room_has_share, room_lines};
use std::collections::HashMap;
use vstd::prelude::*;

pub mod bsp_dungeon;
pub mod bsp_interiors;
pub mod cellular_automata;
pub mod common;
pub mod partition;
pub mod simple_map;

verus! {

/// Whether the builders keep snapshots of the level while they build it.
pub const SHOW_MAPGEN_VISUALIZER: bool = true;

/// One of the four ways to build a level, with the level that it builds.
pub enum MapBuilder {
    Simple(SimpleMapBuilder),
    BspDungeon(BspDungeonBuilder),
    BspInterior(BspInteriorBuilder),
    CellularAutomata(CellularAutomataBuilder),
}

/// What holds of every level that a builder has built: `blocked` holds
/// exactly the walls, the border is wall, the player starts on a floor
/// tile, unless the stairs lie there, can walk from there to every tile
/// that is no wall, and the level has exactly one down staircase.
pub open spec fn level_ready(m: TileMapView, start: Position) -> bool {
    &&& m.wf()
    &&& m.blocked_is_walls()
    &&& border_is_wall(m)
    &&& m.in_bounds(start.x as int, start.y as int)
    &&& m.tile_at(start.x as int, start.y as int) != TileType::Wall
    &&& m.tile_at(start.x as int, start.y as int) == TileType::Floor || single_stairs_at(
        m,
        start.x as int,
        start.y as int,
    )
    &&& m.fully_connected((start.x as int, start.y as int))
    &&& exists|sx: int, sy: int| single_stairs_at(m, sx, sy)
}

/// Which builder a roll of the four-sided die stands for.
pub open spec fn builder_matches_roll(builder: MapBuilder, roll: int) -> bool {
    if roll == 1 {
        builder is BspDungeon
    } else if roll == 2 {
        builder is BspInterior
    } else if roll == 3 {
        builder is CellularAutomata
    } else {
        builder is Simple
    }
}

impl MapBuilder {
    /// The level as it stands.
    pub open spec fn map(self) -> TileMap {
        match self {
            MapBuilder::Simple(b) => b.map,
            MapBuilder::BspDungeon(b) => b.map,
            MapBuilder::BspInterior(b) => b.map,
            MapBuilder::CellularAutomata(b) => b.map,
        }
    }

    pub open spec fn starting_position(self) -> Position {
        match self {
            MapBuilder::Simple(b) => b.starting_position,
            MapBuilder::BspDungeon(b) => b.starting_position,
            MapBuilder::BspInterior(b) => b.starting_position,
            MapBuilder::CellularAutomata(b) => b.starting_position,
        }
    }

    pub open spec fn depth(self) -> i32 {
        match self {
            MapBuilder::Simple(b) => b.depth,
            MapBuilder::BspDungeon(b) => b.depth,
            MapBuilder::BspInterior(b) => b.depth,
            MapBuilder::CellularAutomata(b) => b.depth,
        }
    }

    /// Whether snapshots are kept.
    pub open spec fn recording(self) -> bool {
        match self {
            MapBuilder::Simple(b) => b.recorder.enabled,
            MapBuilder::BspDungeon(b) => b.recorder.enabled,
            MapBuilder::BspInterior(b) => b.recorder.enabled,
            MapBuilder::CellularAutomata(b) => b.recorder.enabled,
        }
    }

    /// The snapshots taken so far, oldest first.
    pub open spec fn history(self) -> Seq<TileMapView> {
        match self {
            MapBuilder::Simple(b) => map_views(b.recorder.history@),
            MapBuilder::BspDungeon(b) => map_views(b.recorder.history@),
            MapBuilder::BspInterior(b) => map_views(b.recorder.history@),
            MapBuilder::CellularAutomata(b) => map_views(b.recorder.history@),
        }
    }

    /// The rooms of the level, in the order in which they were added; a
    /// cave has none.
    pub open spec fn rooms(self) -> Seq<Rect> {
        match self {
            MapBuilder::Simple(b) => b.rooms@,
            MapBuilder::BspDungeon(b) => b.rooms@,
            MapBuilder::BspInterior(b) => b.rooms@,
            MapBuilder::CellularAutomata(_) => Seq::empty(),
        }
    }

    /// The parts into which the map was cut, for the builders that cut it.
    pub open spec fn rects(self) -> Seq<Rect> {
        match self {
            MapBuilder::Simple(_) => Seq::empty(),
            MapBuilder::BspDungeon(b) => b.rects@,
            MapBuilder::BspInterior(b) => b.rects@,
            MapBuilder::CellularAutomata(_) => Seq::empty(),
        }
    }

    /// What holds of the level once it is built, by the kind of builder.
    pub open spec fn built(self) -> bool {
        match self {
            MapBuilder::Simple(b) => {
                &&& level_of_rooms(b.map@, b.starting_position, b.rooms@)
                &&& b.rooms@.len() <= MAX_ROOMS
                &&& forall|i: int| 0 <= i < b.rooms@.len() ==> room_has_size(#[trigger] b.rooms@[i])
            },
            MapBuilder::BspDungeon(b) => {
                &&& level_of_rooms(b.map@, b.starting_position, b.rooms@)
                &&& partitions(
                    b.rects@,
                    0,
                    crate::map_builders::bsp_dungeon::whole_map(),
                    crate::map_builders::bsp_dungeon::MIN_LEAF_SIZE as int,
                )
                &&& b.rooms@.len() == b.rects@.len()
                &&& forall|i: int|
                    0 <= i < b.rooms@.len() ==> room_in_part(#[trigger] b.rooms@[i], b.rects@[i])
            },
            MapBuilder::BspInterior(b) => {
                &&& level_of_rooms(b.map@, b.starting_position, b.rooms@)
                &&& partitions(
                    b.rects@,
                    0,
                    crate::map_builders::bsp_interiors::whole_map(),
                    crate::map_builders::bsp_interiors::MIN_ROOM_SIZE as int,
                )
                &&& b.rooms@.len() == b.rects@.len()
                &&& forall|i: int|
                    0 <= i < b.rooms@.len() ==> #[trigger] b.rooms@[i] == room_of_part(
                        b.rects@[i],
                    )
            },
            MapBuilder::CellularAutomata(b) => level_of_caves(b.map@, b.starting_position),
        }
    }

    /// Every room but the first, or every sector of a cave, has its share
    /// of the plan.
    pub open spec fn shares_given(self, plan: Map<usize, String>) -> bool {
        match self {
            MapBuilder::CellularAutomata(b) => forall|left: int, top: int|
                sector_corner(b.map@, left, top) ==> room_has_share(
                    plan,
                    b.map@,
                    #[trigger] sector_at(b.map@, left, top),
                    b.depth as int,
                ),
            _ => forall|j: int|
                1 <= j < self.rooms().len() ==> room_has_share(
                    plan,
                    self.map()@,
                    #[trigger] self.rooms()[j],
                    self.depth() as int,
                ),
        }
    }

    /// Both are builders of the same kind.
    pub open spec fn same_kind(self, other: MapBuilder) -> bool {
        match self {
            MapBuilder::Simple(_) => other is Simple,
            MapBuilder::BspDungeon(_) => other is BspDungeon,
            MapBuilder::BspInterior(_) => other is BspInterior,
            MapBuilder::CellularAutomata(_) => other is CellularAutomata,
        }
    }

    /// Builds the level afresh, in the way of the builder.
    pub fn build_map(&mut self, rng: &mut rltk::RandomNumberGenerator)
        ensures
            level_ready(final(self).map()@, final(self).starting_position()),
            final(self).map()@ == (TileMapView {
                tiles: final(self).map()@.tiles,
                blocked: final(self).map()@.blocked,
                ..blank_level(old(self).depth() as int)
            }),
            final(self).same_kind(*old(self)),
            final(self).depth() == old(self).depth(),
            final(self).recording() == old(self).recording(),
            old(self).history().is_prefix_of(final(self).history()),
            final(self).recording() ==> final(self).history().len() > 0 && final(self).history().last() == snapshot_view(final(self).map()@),
            final(self).built(),
    {
        match self {
            MapBuilder::Simple(b) => {
                b.build_map(rng);
                proof {
                    lemma_rooms_level_ready(b.map@, b.starting_position, b.rooms@);
                }
            },
            MapBuilder::BspDungeon(b) => {
                b.build_map(rng);
                proof {
                    lemma_rooms_level_ready(b.map@, b.starting_position, b.rooms@);
                }
            },
            MapBuilder::BspInterior(b) => {
                b.build_map(rng);
                proof {
                    lemma_rooms_level_ready(b.map@, b.starting_position, b.rooms@);
                }
            },
            MapBuilder::CellularAutomata(b) => {
                b.build_map(rng);
                proof {
                    lemma_caves_level_ready(b.map@, b.starting_position);
                }
            },
        }
    }

    /// Plans what goes where in the level: a label of the spawn table for
    /// each of a number of floor tiles. Every room but the first, and every
    /// sector of a cave, gets at least what the lowest roll of the die gives
    /// it at the depth of the level.
    pub fn spawn_entities(&self, rng: &mut rltk::RandomNumberGenerator) -> (plan: HashMap<
        usize,
        String,
    >)
        requires
            self.map().wf(),
            depth_in_range(self.depth() as int),
        ensures
            plan@.dom().finite(),
            forall|k: usize| #[trigger]
                plan@.contains_key(k) ==> k < self.map()@.tiles.len() && self.map()@.tiles[k as int]
                    == TileType::Floor && label_in_table(
                    plan@[k]@,
                    room_lines(self.depth() as int),
                    self.depth() as int,
                ),
            self.shares_given(plan@),
    {
        match self {
            MapBuilder::Simple(b) => b.spawn_entities(rng),
            MapBuilder::BspDungeon(b) => b.spawn_entities(rng),
            MapBuilder::BspInterior(b) => b.spawn_entities(rng),
            MapBuilder::CellularAutomata(b) => b.spawn_entities(rng),
        }
    }

    /// A copy of the level.
    pub fn get_map(&self) -> (map: TileMap)
        ensures
            map@ == self.map()@,
    {
        match self {
            MapBuilder::Simple(b) => b.get_map(),
            MapBuilder::BspDungeon(b) => b.get_map(),
            MapBuilder::BspInterior(b) => b.get_map(),
            MapBuilder::CellularAutomata(b) => b.get_map(),
        }
    }

    /// Where the player starts.
    pub fn get_starting_position(&self) -> (start: Position)
        ensures
            start == self.starting_position(),
    {
        match self {
            MapBuilder::Simple(b) => b.get_starting_position(),
            MapBuilder::BspDungeon(b) => b.get_starting_position(),
            MapBuilder::BspInterior(b) => b.get_starting_position(),
            MapBuilder::CellularAutomata(b) => b.get_starting_position(),
        }
    }

    /// A copy of the snapshots taken while the level was built.
    pub fn get_snapshot_history(&self) -> (history: Vec<TileMap>)
        ensures
            map_views(history@) == self.history(),
    {
        match self {
            MapBuilder::Simple(b) => b.get_snapshot_history(),
            MapBuilder::BspDungeon(b) => b.get_snapshot_history(),
            MapBuilder::BspInterior(b) => b.get_snapshot_history(),
            MapBuilder::CellularAutomata(b) => b.get_snapshot_history(),
        }
    }

    /// Records the level as it stands: a fully revealed copy of it joins
    /// the history, if snapshots are kept.
    pub fn take_snapshot(&mut self)
        ensures
            final(self).map() == old(self).map(),
            final(self).starting_position() == old(self).starting_position(),
            final(self).depth() == old(self).depth(),
            final(self).rooms() == old(self).rooms(),
            final(self).rects() == old(self).rects(),
            final(self).same_kind(*old(self)),
            final(self).recording() == old(self).recording(),
            old(self).recording() ==> final(self).history() == old(self).history().push(
                snapshot_view(old(self).map()@),
            ),
            !old(self).recording() ==> final(self).history() == old(self).history(),
    {
        match self {
            MapBuilder::Simple(b) => b.take_snapshot(),
            MapBuilder::BspDungeon(b) => b.take_snapshot(),
            MapBuilder::BspInterior(b) => b.take_snapshot(),
            MapBuilder::CellularAutomata(b) => b.take_snapshot(),
        }
    }
}

/// A flood fill from the player's start marks every tile of a finished
/// level that is not a wall.
pub proof fn lemma_fill_covers_level(m: TileMapView, start: Position, flags: Seq<bool>)
    requires
        level_ready(m, start),
        crate::flood::marks_reachable(m, flags, (start.x as int, start.y as int)),
    ensures
        forall|x: int, y: int|
            m.in_bounds(x, y) && #[trigger] m.tile_at(x, y) != TileType::Wall
                ==> crate::flood::marked(m, flags, x, y),
{
}

/// The player can walk from the start to the stairs of a finished level.
pub proof fn lemma_stairs_can_be_reached(m: TileMapView, start: Position, sx: int, sy: int)
    requires
        level_ready(m, start),
        single_stairs_at(m, sx, sy),
    ensures
        crate::reach::reachable(m.open_cells(), (start.x as int, start.y as int), (sx, sy)),
{
    assert(m.tile_at(sx, sy) == TileType::DownStairs);
}

/// A finished level of rooms is a level on which play can begin.
pub proof fn lemma_rooms_level_ready(m: TileMapView, start: Position, rooms: Seq<crate::rect::Rect>)
    requires
        level_of_rooms(m, start, rooms),
    ensures
        level_ready(m, start),
{
    assert(single_stairs_at(m, rooms.last().center_x(), rooms.last().center_y()));
}

/// A finished cave is a level on which play can begin.
pub proof fn lemma_caves_level_ready(m: TileMapView, start: Position)
    requires
        level_of_caves(m, start),
    ensures
        level_ready(m, start),
{
    let (sx, sy) = choose|sx: int, sy: int|
        crate::map_builders::cellular_automata::stairs_farthest(m, start, sx, sy);
    assert(single_stairs_at(m, sx, sy));
}

/// The builder that a roll of the four-sided die stands for, for a level
/// at the given depth: a dungeon of partitioned rooms for a one, an
/// interior for a two, a cave for a three, rooms and corridors otherwise.
pub fn builder_for_roll(roll: i32, new_depth: i32) -> (builder: MapBuilder)
    ensures
        builder_matches_roll(builder, roll as int),
        builder.map()@ == blank_level(new_depth as int),
        builder.starting_position() == (Position { x: 0, y: 0 }),
        builder.depth() == new_depth,
        builder.recording() == SHOW_MAPGEN_VISUALIZER,
        builder.history().len() == 0,
{
    if roll == 1 {
        MapBuilder::BspDungeon(BspDungeonBuilder::new(new_depth))
    } else if roll == 2 {
        MapBuilder::BspInterior(BspInteriorBuilder::new(new_depth))
    } else if roll == 3 {
        MapBuilder::CellularAutomata(CellularAutomataBuilder::new(new_depth))
    } else {
        MapBuilder::Simple(SimpleMapBuilder::new(new_depth))
    }
}

/// A builder chosen at random, each of the four kinds with the same
/// chance, for a level at the given depth.
pub fn random_builder(new_depth: i32, rng: &mut rltk::RandomNumberGenerator) -> (builder:
    MapBuilder)
    ensures
        builder.map()@ == blank_level(new_depth as int),
        builder.starting_position() == (Position { x: 0, y: 0 }),
        builder.depth() == new_depth,
        builder.recording() == SHOW_MAPGEN_VISUALIZER,
        builder.history().len() == 0,
{
    let roll: i32 = roll_die(rng, 4);
    builder_for_roll(roll, new_depth)
}

} // verus!
