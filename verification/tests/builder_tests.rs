use mcguffin_quest::flood::flood_fill;
use mcguffin_quest::map::{Position, TileMap, TileType};
use mcguffin_quest::map_builders::bsp_dungeon::{room_in_leaf, BspDungeonBuilder};
use mcguffin_quest::map_builders::bsp_interiors::BspInteriorBuilder;
use mcguffin_quest::map_builders::partition::split_region;
use mcguffin_quest::map_builders::simple_map::{
    room_is_free, SimpleMapBuilder, MAX_ROOMS, MAX_SIZE, MIN_SIZE,
};
use mcguffin_quest::map_builders::{
    builder_for_roll, random_builder, MapBuilder, SHOW_MAPGEN_VISUALIZER,
};
use mcguffin_quest::rect::Rect;
use rltk::RandomNumberGenerator;

fn stairs(map: &TileMap) -> Vec<usize> {
    (0..map.tiles.len()).filter(|i| map.tiles[*i] == TileType::DownStairs).collect()
}

/// How many tiles that are no wall the player cannot reach.
fn unreachable_tiles(map: &TileMap, start: Position) -> usize {
    let flags = flood_fill(map, start.x, start.y);
    (0..map.tiles.len()).filter(|i| map.tiles[*i] != TileType::Wall && !flags[*i]).count()
}

fn border_is_wall(map: &TileMap) -> bool {
    let mut ok = true;
    for x in 0..map.width {
        ok = ok && map.tiles[map.xy_idx(x, 0)] == TileType::Wall;
        ok = ok && map.tiles[map.xy_idx(x, map.height - 1)] == TileType::Wall;
    }
    for y in 0..map.height {
        ok = ok && map.tiles[map.xy_idx(0, y)] == TileType::Wall;
        ok = ok && map.tiles[map.xy_idx(map.width - 1, y)] == TileType::Wall;
    }
    ok
}

fn blocked_is_walls(map: &TileMap) -> bool {
    (0..map.tiles.len()).all(|i| map.blocked[i] == (map.tiles[i] == TileType::Wall))
}

fn check_rooms(map: &TileMap, rooms: &[Rect]) {
    assert!(!rooms.is_empty());
    for (i, a) in rooms.iter().enumerate() {
        assert!(a.x1 >= 0 && a.y1 >= 0 && a.x2 <= 78 && a.y2 <= 38);
        assert!(a.x2 - a.x1 >= 2 && a.y2 - a.y1 >= 2);
        for (j, b) in rooms.iter().enumerate() {
            if i != j {
                assert!(!a.intersect(b));
            }
        }
        for y in a.y1 + 1..=a.y2 {
            for x in a.x1 + 1..=a.x2 {
                assert!(map.tiles[map.xy_idx(x, y)] != TileType::Wall);
            }
        }
    }
}

fn check_level(map: &TileMap, start: Position) {
    assert_eq!(map.width, 80);
    assert_eq!(map.height, 40);
    assert_eq!(map.tiles.len(), 3200);
    assert_eq!(stairs(map).len(), 1);
    assert!(border_is_wall(map));
    assert!(blocked_is_walls(map));
    assert!(map.tiles[map.xy_idx(start.x, start.y)] != TileType::Wall);
    assert_eq!(unreachable_tiles(map, start), 0);
    assert_eq!(map.revealed_tiles, vec![false; 3200]);
    assert_eq!(map.visible_tiles, vec![false; 3200]);
    assert!(map.bloodstains.is_empty());
}

#[test]
fn constants_of_the_simple_builder() {
    assert_eq!(MAX_ROOMS, 30);
    assert_eq!(MIN_SIZE, 6);
    assert_eq!(MAX_SIZE, 10);
    assert!(SHOW_MAPGEN_VISUALIZER);
}

#[test]
fn room_is_free_when_it_overlaps_no_room() {
    let rooms = vec![Rect::new(0, 0, 5, 5), Rect::new(10, 10, 5, 5)];
    assert!(room_is_free(&rooms, &Rect::new(5, 0, 5, 5)));
    assert!(room_is_free(&rooms, &Rect::new(20, 20, 5, 5)));
    assert!(!room_is_free(&rooms, &Rect::new(4, 4, 3, 3)));
    assert!(!room_is_free(&rooms, &Rect::new(12, 12, 1, 1)));
    assert!(room_is_free(&Vec::new(), &Rect::new(0, 0, 5, 5)));
}

#[test]
fn new_simple_builder_holds_a_blank_level() {
    let b = SimpleMapBuilder::new(4);
    assert_eq!(b.depth, 4);
    assert_eq!(b.map.depth, 4);
    assert!(b.map.tiles.iter().all(|t| *t == TileType::Wall));
    assert!(b.rooms.is_empty());
    assert_eq!(b.get_starting_position(), Position { x: 0, y: 0 });
    assert!(b.get_snapshot_history().is_empty());
}

#[test]
fn rooms_and_corridors_level_is_connected() {
    for seed in 0..40 {
        let mut rng = RandomNumberGenerator::seeded(seed);
        let mut b = SimpleMapBuilder::new(1);
        b.build_map(&mut rng);
        assert!(b.rooms.len() >= 1);
        assert!(b.rooms.len() <= 30);
        let (cx, cy) = b.rooms[0].center();
        assert_eq!(b.get_starting_position(), Position { x: cx, y: cy });
        let map = b.get_map();
        check_level(&map, b.get_starting_position());
        check_rooms(&map, &b.rooms);
        let (sx, sy) = b.rooms[b.rooms.len() - 1].center();
        assert_eq!(stairs(&map), vec![map.xy_idx(sx, sy)]);
        for room in b.rooms.iter() {
            let w = room.x2 - room.x1;
            let h = room.y2 - room.y1;
            assert!((6..=10).contains(&w) && (6..=10).contains(&h));
        }
        if b.rooms.len() >= 2 {
            assert_eq!(map.tiles[map.xy_idx(cx, cy)], TileType::Floor);
        }
    }
}

#[test]
fn rooms_and_corridors_floor_is_fully_covered_by_a_fill_from_the_start() {
    let mut rng = RandomNumberGenerator::seeded(2024);
    let mut b = SimpleMapBuilder::new(1);
    b.build_map(&mut rng);
    let map = b.get_map();
    let start = b.get_starting_position();
    let flags = flood_fill(&map, start.x, start.y);
    let floor = map.tiles.iter().filter(|t| **t == TileType::Floor).count();
    let covered =
        (0..3200).filter(|i| map.tiles[*i] == TileType::Floor && flags[*i]).count();
    assert!(floor > 0);
    assert_eq!(covered, floor);
}

#[test]
fn building_twice_starts_afresh() {
    let mut rng = RandomNumberGenerator::seeded(8);
    let mut b = SimpleMapBuilder::new(2);
    b.build_map(&mut rng);
    let snapshots = b.get_snapshot_history().len();
    b.build_map(&mut rng);
    let map = b.get_map();
    check_level(&map, b.get_starting_position());
    check_rooms(&map, &b.rooms);
    assert!(b.get_snapshot_history().len() > snapshots);
    assert_eq!(b.depth, 2);
}

#[test]
fn same_seed_builds_the_same_level() {
    let mut a = SimpleMapBuilder::new(1);
    let mut b = SimpleMapBuilder::new(1);
    a.build_map(&mut RandomNumberGenerator::seeded(77));
    b.build_map(&mut RandomNumberGenerator::seeded(77));
    assert_eq!(a.map.tiles, b.map.tiles);
    assert_eq!(a.rooms, b.rooms);
}

#[test]
fn builder_snapshots_end_with_the_finished_level() {
    let mut rng = RandomNumberGenerator::seeded(5);
    let mut b = SimpleMapBuilder::new(1);
    b.build_map(&mut rng);
    let history = b.get_snapshot_history();
    assert_eq!(history.len(), b.rooms.len() + 1);
    let last = &history[history.len() - 1];
    assert_eq!(last.tiles, b.map.tiles);
    assert_eq!(last.revealed_tiles, vec![true; 3200]);
    b.take_snapshot();
    assert_eq!(b.get_snapshot_history().len(), history.len() + 1);
}

#[test]
fn get_map_is_a_copy() {
    let mut rng = RandomNumberGenerator::seeded(5);
    let mut b = SimpleMapBuilder::new(1);
    b.build_map(&mut rng);
    let mut copy = b.get_map();
    copy.tiles[0] = TileType::Floor;
    assert_eq!(b.map.tiles[0], TileType::Wall);
}

#[test]
fn split_region_cuts_the_map_into_parts() {
    for seed in 0..30 {
        let mut rng = RandomNumberGenerator::seeded(seed);
        let mut leaves = vec![Rect::new(500, 500, 1, 1)];
        let whole = Rect::new(0, 0, 79, 39);
        split_region(whole, 8, &mut rng, &mut leaves);
        assert_eq!(leaves[0], Rect::new(500, 500, 1, 1));
        let parts = &leaves[1..];
        assert!(!parts.is_empty());
        let mut area = 0;
        for (i, a) in parts.iter().enumerate() {
            let w = a.x2 - a.x1;
            let h = a.y2 - a.y1;
            assert!(a.x1 >= 0 && a.y1 >= 0 && a.x2 <= 79 && a.y2 <= 39);
            assert!(w >= 8 && h >= 8);
            assert!(w < 16 && h < 16);
            area += w * h;
            for (j, b) in parts.iter().enumerate() {
                if i != j {
                    assert!(!a.intersect(b));
                }
            }
        }
        assert_eq!(area, 79 * 39);
    }
}

#[test]
fn split_region_keeps_a_small_region_whole() {
    let mut rng = RandomNumberGenerator::seeded(1);
    let mut leaves = Vec::new();
    split_region(Rect::new(3, 4, 15, 15), 8, &mut rng, &mut leaves);
    assert_eq!(leaves, vec![Rect::new(3, 4, 15, 15)]);
}

#[test]
fn split_region_halves_along_the_only_side_that_is_long_enough() {
    let mut rng = RandomNumberGenerator::seeded(1);
    let mut leaves = Vec::new();
    split_region(Rect::new(0, 0, 20, 10), 8, &mut rng, &mut leaves);
    assert_eq!(leaves, vec![Rect::new(0, 0, 10, 10), Rect::new(10, 0, 10, 10)]);
    let mut tall = Vec::new();
    split_region(Rect::new(2, 2, 9, 17), 8, &mut rng, &mut tall);
    assert_eq!(tall, vec![Rect { x1: 2, y1: 2, x2: 11, y2: 10 }, Rect { x1: 2, y1: 10, x2: 11, y2: 19 }]);
}

#[test]
fn room_in_leaf_keeps_clear_of_the_far_edges() {
    let leaf = Rect::new(10, 20, 12, 9);
    for seed in 0..200 {
        let mut rng = RandomNumberGenerator::seeded(seed);
        let room = room_in_leaf(&leaf, &mut rng);
        assert!(room.x1 >= 10 && room.y1 >= 20);
        assert!(room.x2 <= 21 && room.y2 <= 28);
        assert!(room.x2 - room.x1 >= 4 && room.y2 - room.y1 >= 4);
    }
}

#[test]
fn bsp_dungeon_level_is_connected() {
    for seed in 0..40 {
        let mut rng = RandomNumberGenerator::seeded(seed);
        let mut b = BspDungeonBuilder::new(3);
        b.build_map(&mut rng);
        let map = b.get_map();
        assert_eq!(map.depth, 3);
        check_level(&map, b.get_starting_position());
        check_rooms(&map, &b.rooms);
        assert_eq!(b.rooms.len(), b.rects.len());
        for (room, part) in b.rooms.iter().zip(b.rects.iter()) {
            assert!(room.x1 >= part.x1 && room.y1 >= part.y1);
            assert!(room.x2 <= part.x2 - 1 && room.y2 <= part.y2 - 1);
        }
        let (cx, cy) = b.rooms[0].center();
        assert_eq!(b.get_starting_position(), Position { x: cx, y: cy });
        let (sx, sy) = b.rooms[b.rooms.len() - 1].center();
        assert_eq!(stairs(&map), vec![map.xy_idx(sx, sy)]);
        assert_eq!(b.get_snapshot_history().len(), b.rooms.len() + 1);
    }
}

#[test]
fn bsp_interior_level_is_connected() {
    for seed in 0..40 {
        let mut rng = RandomNumberGenerator::seeded(seed);
        let mut b = BspInteriorBuilder::new(2);
        b.build_map(&mut rng);
        let map = b.get_map();
        check_level(&map, b.get_starting_position());
        check_rooms(&map, &b.rooms);
        assert_eq!(b.rooms.len(), b.rects.len());
        for (room, part) in b.rooms.iter().zip(b.rects.iter()) {
            assert_eq!(
                *room,
                Rect { x1: part.x1, y1: part.y1, x2: part.x2 - 1, y2: part.y2 - 1 }
            );
        }
        let (cx, cy) = b.rooms[0].center();
        assert_eq!(b.get_starting_position(), Position { x: cx, y: cy });
    }
}

#[test]
fn bsp_interior_fills_most_of_the_map() {
    let mut rng = RandomNumberGenerator::seeded(3);
    let mut b = BspInteriorBuilder::new(1);
    b.build_map(&mut rng);
    let open = b.map.tiles.iter().filter(|t| **t != TileType::Wall).count();
    assert!(open > 3200 / 2);
}

#[test]
fn builder_for_roll_picks_the_kind() {
    assert!(matches!(builder_for_roll(1, 1), MapBuilder::BspDungeon(_)));
    assert!(matches!(builder_for_roll(2, 1), MapBuilder::BspInterior(_)));
    assert!(matches!(builder_for_roll(3, 1), MapBuilder::CellularAutomata(_)));
    assert!(matches!(builder_for_roll(4, 1), MapBuilder::Simple(_)));
    assert!(matches!(builder_for_roll(0, 1), MapBuilder::Simple(_)));
    assert!(matches!(builder_for_roll(-7, 1), MapBuilder::Simple(_)));
}

#[test]
fn builder_for_roll_starts_with_a_blank_level() {
    for roll in 1..=4 {
        let b = builder_for_roll(roll, 6);
        let map = b.get_map();
        assert_eq!(map.depth, 6);
        assert!(map.tiles.iter().all(|t| *t == TileType::Wall));
        assert_eq!(b.get_starting_position(), Position { x: 0, y: 0 });
        assert!(b.get_snapshot_history().is_empty());
    }
}

#[test]
fn random_builder_gives_every_kind() {
    let mut rng = RandomNumberGenerator::seeded(9);
    let mut seen = [false; 4];
    for _ in 0..200 {
        let i = match random_builder(1, &mut rng) {
            MapBuilder::Simple(_) => 0,
            MapBuilder::BspDungeon(_) => 1,
            MapBuilder::BspInterior(_) => 2,
            MapBuilder::CellularAutomata(_) => 3,
        };
        seen[i] = true;
    }
    assert_eq!(seen, [true; 4]);
}

#[test]
fn every_kind_of_builder_builds_a_level_ready_for_play() {
    for roll in 1..=4 {
        for seed in 0..10 {
            let mut rng = RandomNumberGenerator::seeded(1000 + seed);
            let mut b = builder_for_roll(roll, 2);
            b.build_map(&mut rng);
            let map = b.get_map();
            check_level(&map, b.get_starting_position());
            assert_eq!(map.depth, 2);
            assert!(!b.get_snapshot_history().is_empty());
            let before = b.get_snapshot_history().len();
            b.take_snapshot();
            let history = b.get_snapshot_history();
            assert_eq!(history.len(), before + 1);
            assert_eq!(history[before].tiles, map.tiles);
            assert_eq!(history[before].revealed_tiles, vec![true; 3200]);
        }
    }
}

#[test]
fn every_kind_of_builder_plans_spawns_on_floor_tiles() {
    for roll in 1..=4 {
        let mut total = 0;
        for seed in 0..10 {
            let mut rng = RandomNumberGenerator::seeded(50 + seed);
            let mut b = builder_for_roll(roll, 4);
            b.build_map(&mut rng);
            let map = b.get_map();
            let plan = b.spawn_entities(&mut rng);
            total += plan.len();
            for (idx, label) in plan.iter() {
                assert_eq!(map.tiles[*idx], TileType::Floor);
                assert!(!label.is_empty());
            }
        }
        assert!(total > 0);
    }
}

#[test]
fn every_kind_of_builder_fills_its_plan_from_depth_four_on() {
    for roll in 1..=4 {
        for seed in 0..10 {
            let mut rng = RandomNumberGenerator::seeded(300 + seed);
            let mut b = builder_for_roll(roll, 4);
            b.build_map(&mut rng);
            let plan = b.spawn_entities(&mut rng);
            assert!(!plan.is_empty());
        }
    }
}

#[test]
fn rooms_builder_gives_every_later_room_its_share() {
    for seed in 0..20 {
        let mut rng = RandomNumberGenerator::seeded(seed);
        let mut b = BspDungeonBuilder::new(5);
        b.build_map(&mut rng);
        let plan = b.spawn_entities(&mut rng);
        for room in b.rooms[1..].iter() {
            let spots = mcguffin_quest::spawner::room_floor_tiles(&b.map, room);
            let filled = plan.keys().filter(|k| spots.contains(*k)).count();
            // at depth 5 the lowest roll gives 1 + 4 - 3 = 2 things
            assert!(filled >= 2.min(spots.len()));
        }
    }
}

#[test]
fn start_is_floor_unless_the_stairs_lie_on_it() {
    for roll in 1..=4 {
        for seed in 0..10 {
            let mut rng = RandomNumberGenerator::seeded(700 + seed);
            let mut b = builder_for_roll(roll, 1);
            b.build_map(&mut rng);
            let map = b.get_map();
            let start = b.get_starting_position();
            let tile = map.tiles[map.xy_idx(start.x, start.y)];
            let open = map.tiles.iter().filter(|t| **t != TileType::Wall).count();
            assert!(tile == TileType::Floor || (tile == TileType::DownStairs && open >= 1));
            if open > 1 && roll == 3 {
                assert_eq!(tile, TileType::Floor);
            }
        }
    }
}

#[test]
fn rooms_builder_plans_nothing_for_the_first_room() {
    for seed in 0..20 {
        let mut rng = RandomNumberGenerator::seeded(seed);
        let mut b = SimpleMapBuilder::new(6);
        b.build_map(&mut rng);
        let plan = b.spawn_entities(&mut rng);
        for idx in plan.keys() {
            let x = (*idx % 80) as i32;
            let y = (*idx / 80) as i32;
            let inside_later = b.rooms[1..]
                .iter()
                .any(|r| r.x1 < x && x < r.x2 && r.y1 < y && y < r.y2);
            assert!(inside_later);
        }
    }
}
