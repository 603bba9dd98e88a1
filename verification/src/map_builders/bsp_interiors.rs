use crate::map::{blank_level, Position, TileMap, TileMapView, MAPHEIGHT, MAPWIDTH};
use crate::map_builders::common::{
    add_linked_room, all_wall, finish_rooms, layout_ok, level_of_rooms, map_views, snapshot_view,
    SnapshotRecorder,
};
use crate::map_builders::partition::{partitions, split_region};
use crate::map_builders::SHOW_MAPGEN_VISUALIZER;
use crate::spawner::{
    depth_in_range, label_in_table, room_has_share, room_lines, spawn_rooms, spot_in_later_room,
};
use crate::rect::{lemma_within_disjoint, Rect};
use std::collections::HashMap;
use vstd::prelude::*;

verus! {

/// Smallest width and height of a part of the partition.
pub const MIN_ROOM_SIZE: i32 = 8;

/// Builds a level by cutting the map into parts again and again. Each part
/// becomes one room that fills it, so that only the cuts stay wall, with a
/// doorway through them from each room to the next.
pub struct BspInteriorBuilder {
    pub map: TileMap,
    pub starting_position: Position,
    pub depth: i32,
    pub rooms: Vec<Rect>,
    pub rects: Vec<Rect>,
    pub recorder: SnapshotRecorder,
}

/// The region that the partition starts from: the whole map.
pub open spec fn whole_map() -> Rect {
    Rect { x1: 0, y1: 0, x2: (MAPWIDTH - 1) as i32, y2: (MAPHEIGHT - 1) as i32 }
}

/// The room that fills a part: it leaves the right and bottom edge of the
/// part as wall.
pub open spec fn room_of_part(part: Rect) -> Rect {
    Rect { x1: part.x1, y1: part.y1, x2: (part.x2 - 1) as i32, y2: (part.y2 - 1) as i32 }
}

impl BspInteriorBuilder {
    pub fn new(new_depth: i32) -> (builder: BspInteriorBuilder)
        ensures
            builder.map@ == blank_level(new_depth as int),
            builder.starting_position == (Position { x: 0, y: 0 }),
            builder.depth == new_depth,
            builder.rooms@.len() == 0,
            builder.rects@.len() == 0,
            builder.recorder.enabled == SHOW_MAPGEN_VISUALIZER,
            builder.recorder.history@.len() == 0,
    {
        BspInteriorBuilder {
            map: TileMap::new(new_depth),
            starting_position: Position { x: 0, y: 0 },
            depth: new_depth,
            rooms: Vec::new(),
            rects: Vec::new(),
            recorder: SnapshotRecorder::new(SHOW_MAPGEN_VISUALIZER),
        }
    }

    /// Builds the level afresh. The map is cut into parts; each part
    /// becomes a room, which is joined to the room of the part before it by
    /// a corridor from center to center that opens a doorway in the walls
    /// between them. The player starts in the first room; the stairs go
    /// into the last.
    pub fn build_map(&mut self, rng: &mut rltk::RandomNumberGenerator)
        ensures
            level_of_rooms(final(self).map@, final(self).starting_position, final(self).rooms@),
            final(self).map@ == (TileMapView {
                tiles: final(self).map@.tiles,
                blocked: final(self).map@.blocked,
                ..blank_level(old(self).depth as int)
            }),
            partitions(final(self).rects@, 0, whole_map(), MIN_ROOM_SIZE as int),
            final(self).rooms@.len() == final(self).rects@.len(),
            forall|i: int|
                0 <= i < final(self).rooms@.len() ==> #[trigger] final(self).rooms@[i]
                    == room_of_part(final(self).rects@[i]),
            final(self).depth == old(self).depth,
            final(self).recorder.enabled == old(self).recorder.enabled,
            map_views(old(self).recorder.history@).is_prefix_of(
                map_views(final(self).recorder.history@),
            ),
            final(self).recorder.enabled ==> map_views(final(self).recorder.history@).len() > 0
                && map_views(final(self).recorder.history@).last() == snapshot_view(
                final(self).map@,
            ),
    {
        self.map = TileMap::new(self.depth);
        self.rooms = Vec::new();
        self.rects = Vec::new();
        let ghost blank = self.map@;
        let ghost history = map_views(old(self).recorder.history@);
        proof {
            assert(all_wall(blank));
            assert(layout_ok(blank, self.rooms@));
        }
        let whole: Rect = Rect::new(0, 0, self.map.width - 1, self.map.height - 1);
        split_region(whole, MIN_ROOM_SIZE, rng, &mut self.rects);
        let mut i: usize = 0;
        while i < self.rects.len()
            invariant
                i <= self.rects@.len(),
                blank == blank_level(self.depth as int),
                self.depth == old(self).depth,
                self.map@ == (TileMapView { tiles: self.map@.tiles, ..blank }),
                partitions(self.rects@, 0, whole_map(), MIN_ROOM_SIZE as int),
                layout_ok(self.map@, self.rooms@),
                self.rooms@.len() == i,
                forall|k: int|
                    0 <= k < i ==> #[trigger] self.rooms@[k] == room_of_part(self.rects@[k]),
                self.recorder.enabled == old(self).recorder.enabled,
                history.is_prefix_of(map_views(self.recorder.history@)),
            decreases self.rects@.len() - i,
        {
            let part: Rect = self.rects[i];
            assert(part.within(whole_map()));
            let room: Rect = Rect { x1: part.x1, y1: part.y1, x2: part.x2 - 1, y2: part.y2 - 1 };
            proof {
                assert forall|k: int| 0 <= k < self.rooms@.len() implies !(
                #[trigger] self.rooms@[k]).overlaps(room) by {
                    assert(self.rooms@[k] == room_of_part(self.rects@[k]));
                    assert(!self.rects@[k].overlaps(self.rects@[i as int]));
                    lemma_within_disjoint(self.rooms@[k], room, self.rects@[k], part);
                }
            }
            add_linked_room(&mut self.map, &mut self.rooms, room, true);
            self.recorder.record(&self.map);
            i += 1;
        }
        self.starting_position = finish_rooms(&mut self.map, &self.rooms);
        self.recorder.record(&self.map);
    }

    /// Plans what goes where in the level: monsters, items and traps for
    /// every room but the one in which the player starts, each on a floor
    /// tile of its own. Every such room gets at least what the lowest roll
    /// of the die gives it at this depth.
    pub fn spawn_entities(&self, rng: &mut rltk::RandomNumberGenerator) -> (plan: HashMap<
        usize,
        String,
    >)
        requires
            self.map.wf(),
            depth_in_range(self.depth as int),
        ensures
            plan@.dom().finite(),
            forall|k: usize| #[trigger]
                plan@.contains_key(k) ==> spot_in_later_room(self.map@, self.rooms@, k as int)
                    && label_in_table(
                    plan@[k]@,
                    room_lines(self.depth as int),
                    self.depth as int,
                ),
            forall|j: int|
                1 <= j < self.rooms@.len() ==> room_has_share(
                    plan@,
                    self.map@,
                    #[trigger] self.rooms@[j],
                    self.depth as int,
                ),
    {
        spawn_rooms(&self.map, &self.rooms, self.depth, rng)
    }

    /// A copy of the level.
    pub fn get_map(&self) -> (map: TileMap)
        ensures
            map@ == self.map@,
    {
        self.map.clone()
    }

    /// Where the player starts.
    pub fn get_starting_position(&self) -> (start: Position)
        ensures
            start == self.starting_position,
    {
        self.starting_position
    }

    /// A copy of the snapshots taken while the level was built.
    pub fn get_snapshot_history(&self) -> (history: Vec<TileMap>)
        ensures
            map_views(history@) == map_views(self.recorder.history@),
    {
        self.recorder.snapshots()
    }

    /// Records the level as it stands.
    pub fn take_snapshot(&mut self)
        ensures
            final(self).map == old(self).map,
            final(self).starting_position == old(self).starting_position,
            final(self).depth == old(self).depth,
            final(self).rooms == old(self).rooms,
            final(self).rects == old(self).rects,
            final(self).recorder.enabled == old(self).recorder.enabled,
            old(self).recorder.enabled ==> map_views(final(self).recorder.history@) == map_views(
                old(self).recorder.history@,
            ).push(snapshot_view(old(self).map@)),
            !old(self).recorder.enabled ==> final(self).recorder.history@ == old(
                self,
            ).recorder.history@,
    {
        self.recorder.record(&self.map);
    }
}

} // verus!
