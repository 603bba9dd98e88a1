use crate::dice::roll_between;
use crate::map::{blank_level, Position, TileMap, TileMapView, MAPHEIGHT, MAPWIDTH};
use crate::map_builders::common::{
    add_linked_room, all_wall, finish_rooms, layout_ok, level_of_rooms, map_views, snapshot_view,
    SnapshotRecorder,
};
use crate::map_builders::partition::{partitions, region_has_size, split_region};
use crate::map_builders::SHOW_MAPGEN_VISUALIZER;
use crate::spawner::{
    depth_in_range, label_in_table, room_has_share, room_lines, spawn_rooms, spot_in_later_room,
};
use crate::rect::{lemma_within_disjoint, Rect};
use std::collections::HashMap;
use vstd::prelude::*;

verus! {

/// Smallest width and height of a part of the partition.
pub const MIN_LEAF_SIZE: i32 = 8;

/// Smallest width and height of a room.
pub const MIN_ROOM_SIZE: i32 = 4;

/// Builds a level by cutting the map into parts again and again and
/// putting one room into each part, each joined to the room before it by
/// a corridor.
pub struct BspDungeonBuilder {
    pub map: TileMap,
    pub starting_position: Position,
    pub depth: i32,
    pub rooms: Vec<Rect>,
    pub rects: Vec<Rect>,
    pub recorder: SnapshotRecorder,
}

/// The region that the partition starts from: the whole map.
pub open spec fn whole_map() -> Rect {
    Rect { x1: 0, y1: 0, x2: (MAPWIDTH - 1) as i32, y2: (MAPHEIGHT - 1) as i32 }
}

/// The room lies in the part, has at least the minimum size, and keeps
/// clear of the right and bottom edge of the part, so that a wall stays
/// between the rooms of neighbouring parts.
pub open spec fn room_in_part(room: Rect, part: Rect) -> bool {
    &&& part.x1 <= room.x1
    &&& room.x1 + MIN_ROOM_SIZE <= room.x2 <= part.x2 - 1
    &&& part.y1 <= room.y1
    &&& room.y1 + MIN_ROOM_SIZE <= room.y2 <= part.y2 - 1
}

/// A room of random size at a random place inside the part.
pub fn room_in_leaf(part: &Rect, rng: &mut rltk::RandomNumberGenerator) -> (room: Rect)
    requires
        region_has_size(*part, MIN_LEAF_SIZE as int),
        0 <= part.x1,
        0 <= part.y1,
    ensures
        room_in_part(room, *part),
{
    let part_width: i32 = part.x2 - part.x1;
    let part_height: i32 = part.y2 - part.y1;
    let w: i32 = roll_between(rng, MIN_ROOM_SIZE, part_width - 1);
    let h: i32 = roll_between(rng, MIN_ROOM_SIZE, part_height - 1);
    let x: i32 = part.x1 + roll_between(rng, 0, part_width - 1 - w);
    let y: i32 = part.y1 + roll_between(rng, 0, part_height - 1 - h);
    Rect::new(x, y, w, h)
}

impl BspDungeonBuilder {
    pub fn new(new_depth: i32) -> (builder: BspDungeonBuilder)
        ensures
            builder.map@ == blank_level(new_depth as int),
            builder.starting_position == (Position { x: 0, y: 0 }),
            builder.depth == new_depth,
            builder.rooms@.len() == 0,
            builder.rects@.len() == 0,
            builder.recorder.enabled == SHOW_MAPGEN_VISUALIZER,
            builder.recorder.history@.len() == 0,
    {
        BspDungeonBuilder {
            map: TileMap::new(new_depth),
            starting_position: Position { x: 0, y: 0 },
            depth: new_depth,
            rooms: Vec::new(),
            rects: Vec::new(),
            recorder: SnapshotRecorder::new(SHOW_MAPGEN_VISUALIZER),
        }
    }

    /// Builds the level afresh. The map is cut into parts; each part gets
    /// a room of random size and place, which is joined to the room of the
    /// part before it by a corridor from center to center. The player
    /// starts in the first room; the stairs go into the last.
    pub fn build_map(&mut self, rng: &mut rltk::RandomNumberGenerator)
        ensures
            level_of_rooms(final(self).map@, final(self).starting_position, final(self).rooms@),
            final(self).map@ == (TileMapView {
                tiles: final(self).map@.tiles,
                blocked: final(self).map@.blocked,
                ..blank_level(old(self).depth as int)
            }),
            partitions(final(self).rects@, 0, whole_map(), MIN_LEAF_SIZE as int),
            final(self).rooms@.len() == final(self).rects@.len(),
            forall|i: int|
                0 <= i < final(self).rooms@.len() ==> room_in_part(
                    #[trigger] final(self).rooms@[i],
                    final(self).rects@[i],
                ),
            final(self).depth == old(self).depth,
            final(self).recorder.enabled == old(self).recorder.enabled,
            map_views(old(self).recorder.history@).is_prefix_of(
                map_views(final(self).recorder.history@),
            ),
            final(self).recorder.enabled ==> map_views(final(self).recorder.history@).len() > 0
                && map_views(final(self).recorder.history@).last() == snapshot_view(
                final(self).map@,
            ),
    {
        self.map = TileMap::new(self.depth);
        self.rooms = Vec::new();
        self.rects = Vec::new();
        let ghost blank = self.map@;
        let ghost history = map_views(old(self).recorder.history@);
        proof {
            assert(all_wall(blank));
            assert(layout_ok(blank, self.rooms@));
        }
        let whole: Rect = Rect::new(0, 0, self.map.width - 1, self.map.height - 1);
        split_region(whole, MIN_LEAF_SIZE, rng, &mut self.rects);
        let mut i: usize = 0;
        while i < self.rects.len()
            invariant
                i <= self.rects@.len(),
                blank == blank_level(self.depth as int),
                self.depth == old(self).depth,
                self.map@ == (TileMapView { tiles: self.map@.tiles, ..blank }),
                partitions(self.rects@, 0, whole_map(), MIN_LEAF_SIZE as int),
                layout_ok(self.map@, self.rooms@),
                self.rooms@.len() == i,
                forall|k: int|
                    0 <= k < i ==> room_in_part(#[trigger] self.rooms@[k], self.rects@[k]),
                self.recorder.enabled == old(self).recorder.enabled,
                history.is_prefix_of(map_views(self.recorder.history@)),
            decreases self.rects@.len() - i,
        {
            let part: Rect = self.rects[i];
            assert(part.within(whole_map()));
            let room: Rect = room_in_leaf(&part, rng);
            proof {
                assert forall|k: int| 0 <= k < self.rooms@.len() implies !(
                #[trigger] self.rooms@[k]).overlaps(room) by {
                    assert(room_in_part(self.rooms@[k], self.rects@[k]));
                    assert(!self.rects@[k].overlaps(self.rects@[i as int]));
                    lemma_within_disjoint(self.rooms@[k], room, self.rects@[k], part);
                }
            }
            add_linked_room(&mut self.map, &mut self.rooms, room, true);
            self.recorder.record(&self.map);
            i += 1;
        }
        self.starting_position = finish_rooms(&mut self.map, &self.rooms);
        self.recorder.record(&self.map);
    }

    /// Plans what goes where in the level: monsters, items and traps for
    /// every room but the one in which the player starts, each on a floor
    /// tile of its own. Every such room gets at least what the lowest roll
    /// of the die gives it at this depth.
    pub fn spawn_entities(&self, rng: &mut rltk::RandomNumberGenerator) -> (plan: HashMap<
        usize,
        String,
    >)
        requires
            self.map.wf(),
            depth_in_range(self.depth as int),
        ensures
            plan@.dom().finite(),
            forall|k: usize| #[trigger]
                plan@.contains_key(k) ==> spot_in_later_room(self.map@, self.rooms@, k as int)
                    && label_in_table(
                    plan@[k]@,
                    room_lines(self.depth as int),
                    self.depth as int,
                ),
            forall|j: int|
                1 <= j < self.rooms@.len() ==> room_has_share(
                    plan@,
                    self.map@,
                    #[trigger] self.rooms@[j],
                    self.depth as int,
                ),
    {
        spawn_rooms(&self.map, &self.rooms, self.depth, rng)
    }

    /// A copy of the level.
    pub fn get_map(&self) -> (map: TileMap)
        ensures
            map@ == self.map@,
    {
        self.map.clone()
    }

    /// Where the player starts.
    pub fn get_starting_position(&self) -> (start: Position)
        ensures
            start == self.starting_position,
    {
        self.starting_position
    }

    /// A copy of the snapshots taken while the level was built.
    pub fn get_snapshot_history(&self) -> (history: Vec<TileMap>)
        ensures
            map_views(history@) == map_views(self.recorder.history@),
    {
        self.recorder.snapshots()
    }

    /// Records the level as it stands.
    pub fn take_snapshot(&mut self)
        ensures
            final(self).map == old(self).map,
            final(self).starting_position == old(self).starting_position,
            final(self).depth == old(self).depth,
            final(self).rooms == old(self).rooms,
            final(self).rects == old(self).rects,
            final(self).recorder.enabled == old(self).recorder.enabled,
            old(self).recorder.enabled ==> map_views(final(self).recorder.history@) == map_views(
                old(self).recorder.history@,
            ).push(snapshot_view(old(self).map@)),
            !old(self).recorder.enabled ==> final(self).recorder.history@ == old(
                self,
            ).recorder.history@,
    {
        self.recorder.record(&self.map);
    }
}

} // verus!
