use crate::dice::{roll_between, roll_die};
use crate::map::{blank_level, Position, TileMap, TileMapView};
use crate::map_builders::common::{
    add_linked_room, all_wall, finish_rooms, layout_ok, level_of_rooms, map_views, snapshot_view,
    SnapshotRecorder,
};
use crate::map_builders::SHOW_MAPGEN_VISUALIZER;
use crate::spawner::{
    depth_in_range, label_in_table, room_has_share, room_lines, spawn_rooms, spot_in_later_room,
};
use crate::rect::Rect;
use std::collections::HashMap;
use vstd::prelude::*;

verus! {

/// How many times the builder tries to place a room.
pub const MAX_ROOMS: i32 = 30;

/// Smallest width and height of a room.
pub const MIN_SIZE: i32 = 6;

/// Largest width and height of a room.
pub const MAX_SIZE: i32 = 10;

/// Builds a level of rectangular rooms placed at random, each joined to the
/// room placed before it by a corridor.
pub struct SimpleMapBuilder {
    pub map: TileMap,
    pub starting_position: Position,
    pub depth: i32,
    pub rooms: Vec<Rect>,
    pub recorder: SnapshotRecorder,
}

/// The room is between `MIN_SIZE` and `MAX_SIZE` wide and high.
pub open spec fn room_has_size(room: Rect) -> bool {
    &&& MIN_SIZE <= room.x2 - room.x1 <= MAX_SIZE
    &&& MIN_SIZE <= room.y2 - room.y1 <= MAX_SIZE
}

/// Whether `room` overlaps none of `rooms`.
pub fn room_is_free(rooms: &Vec<Rect>, room: &Rect) -> (free: bool)
    ensures
        free == forall|i: int| 0 <= i < rooms@.len() ==> !(#[trigger] rooms@[i]).overlaps(*room),
{
    let mut free: bool = true;
    let mut i: usize = 0;
    while i < rooms.len()
        invariant
            i <= rooms@.len(),
            free == forall|k: int| 0 <= k < i ==> !(#[trigger] rooms@[k]).overlaps(*room),
        decreases rooms@.len() - i,
    {
        if room.intersect(&rooms[i]) {
            assert(rooms@[i as int].overlaps(*room));
            free = false;
        }
        i += 1;
    }
    free
}

impl SimpleMapBuilder {
    pub fn new(new_depth: i32) -> (builder: SimpleMapBuilder)
        ensures
            builder.map@ == blank_level(new_depth as int),
            builder.starting_position == (Position { x: 0, y: 0 }),
            builder.depth == new_depth,
            builder.rooms@.len() == 0,
            builder.recorder.enabled == SHOW_MAPGEN_VISUALIZER,
            builder.recorder.history@.len() == 0,
    {
        SimpleMapBuilder {
            map: TileMap::new(new_depth),
            starting_position: Position { x: 0, y: 0 },
            depth: new_depth,
            rooms: Vec::new(),
            recorder: SnapshotRecorder::new(SHOW_MAPGEN_VISUALIZER),
        }
    }

    /// Builds the level afresh. `MAX_ROOMS` times a room of random size is
    /// put at a random place; it is kept if it overlaps no room kept before,
    /// and then joined to the last of them by two straight tunnels, in an
    /// order chosen at random. The player starts in the first room; the
    /// stairs go into the last.
    pub fn build_map(&mut self, rng: &mut rltk::RandomNumberGenerator)
        ensures
            level_of_rooms(final(self).map@, final(self).starting_position, final(self).rooms@),
            final(self).map@ == (TileMapView {
                tiles: final(self).map@.tiles,
                blocked: final(self).map@.blocked,
                ..blank_level(old(self).depth as int)
            }),
            final(self).rooms@.len() <= MAX_ROOMS,
            forall|i: int|
                0 <= i < final(self).rooms@.len() ==> room_has_size(
                    #[trigger] final(self).rooms@[i],
                ),
            final(self).depth == old(self).depth,
            final(self).recorder.enabled == old(self).recorder.enabled,
            map_views(old(self).recorder.history@).is_prefix_of(
                map_views(final(self).recorder.history@),
            ),
            final(self).recorder.enabled ==> map_views(final(self).recorder.history@).len() > 0
                && map_views(final(self).recorder.history@).last() == snapshot_view(
                final(self).map@,
            ),
    {
        self.map = TileMap::new(self.depth);
        self.rooms = Vec::new();
        let ghost blank = self.map@;
        let ghost history = map_views(old(self).recorder.history@);
        proof {
            assert(all_wall(blank));
            assert(layout_ok(blank, self.rooms@));
        }
        let mut tries: i32 = 0;
        while tries < MAX_ROOMS
            invariant
                0 <= tries <= MAX_ROOMS,
                blank == blank_level(self.depth as int),
                self.depth == old(self).depth,
                self.map@ == (TileMapView { tiles: self.map@.tiles, ..blank }),
                layout_ok(self.map@, self.rooms@),
                self.rooms@.len() <= tries,
                tries > 0 ==> self.rooms@.len() > 0,
                forall|i: int| 0 <= i < self.rooms@.len() ==> room_has_size(#[trigger] self.rooms@[i]),
                self.recorder.enabled == old(self).recorder.enabled,
                history.is_prefix_of(map_views(self.recorder.history@)),
            decreases MAX_ROOMS - tries,
        {
            let w: i32 = roll_between(rng, MIN_SIZE, MAX_SIZE);
            let h: i32 = roll_between(rng, MIN_SIZE, MAX_SIZE);
            let x: i32 = roll_die(rng, self.map.width - w - 1) - 1;
            let y: i32 = roll_die(rng, self.map.height - h - 1) - 1;
            let new_room: Rect = Rect::new(x, y, w, h);
            if room_is_free(&self.rooms, &new_room) {
                let horizontal_first: bool = roll_between(rng, 0, 1) == 1;
                let ghost kept = self.rooms@;
                add_linked_room(&mut self.map, &mut self.rooms, new_room, horizontal_first);
                self.recorder.record(&self.map);
                proof {
                    assert forall|i: int| 0 <= i < self.rooms@.len() implies room_has_size(
                        #[trigger] self.rooms@[i],
                    ) by {
                        if i < kept.len() {
                            assert(self.rooms@[i] == kept[i]);
                        }
                    }
                }
            }
            tries += 1;
        }
        self.starting_position = finish_rooms(&mut self.map, &self.rooms);
        self.recorder.record(&self.map);
    }

    /// Plans what goes where in the level: monsters, items and traps for
    /// every room but the one in which the player starts, each on a floor
    /// tile of its own. Every such room gets at least what the lowest roll
    /// of the die gives it at this depth.
    pub fn spawn_entities(&self, rng: &mut rltk::RandomNumberGenerator) -> (plan: HashMap<
        usize,
        String,
    >)
        requires
            self.map.wf(),
            depth_in_range(self.depth as int),
        ensures
            plan@.dom().finite(),
            forall|k: usize| #[trigger]
                plan@.contains_key(k) ==> spot_in_later_room(self.map@, self.rooms@, k as int)
                    && label_in_table(
                    plan@[k]@,
                    room_lines(self.depth as int),
                    self.depth as int,
                ),
            forall|j: int|
                1 <= j < self.rooms@.len() ==> room_has_share(
                    plan@,
                    self.map@,
                    #[trigger] self.rooms@[j],
                    self.depth as int,
                ),
    {
        spawn_rooms(&self.map, &self.rooms, self.depth, rng)
    }

    /// A copy of the level.
    pub fn get_map(&self) -> (map: TileMap)
        ensures
            map@ == self.map@,
    {
        self.map.clone()
    }

    /// Where the player starts.
    pub fn get_starting_position(&self) -> (start: Position)
        ensures
            start == self.starting_position,
    {
        self.starting_position
    }

    /// A copy of the snapshots taken while the level was built.
    pub fn get_snapshot_history(&self) -> (history: Vec<TileMap>)
        ensures
            map_views(history@) == map_views(self.recorder.history@),
    {
        self.recorder.snapshots()
    }

    /// Records the level as it stands.
    pub fn take_snapshot(&mut self)
        ensures
            final(self).map == old(self).map,
            final(self).starting_position == old(self).starting_position,
            final(self).depth == old(self).depth,
            final(self).rooms == old(self).rooms,
            final(self).recorder.enabled == old(self).recorder.enabled,
            old(self).recorder.enabled ==> map_views(final(self).recorder.history@) == map_views(
                old(self).recorder.history@,
            ).push(snapshot_view(old(self).map@)),
            !old(self).recorder.enabled ==> final(self).recorder.history@ == old(
                self,
            ).recorder.history@,
    {
        self.recorder.record(&self.map);
    }
}

} // verus!
