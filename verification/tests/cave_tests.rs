use mcguffin_quest::flood::flood_fill;
use mcguffin_quest::map::{Position, TileMap, TileType};
use mcguffin_quest::map_builders::cellular_automata::{
    count_wall_neighbours, farthest_marked, fill_at_random, initial_tile, nearest_floor, smooth,
    CellularAutomataBuilder, SECTOR_HEIGHT, SECTOR_WIDTH, SMOOTHING_PASSES, WALL_CHANCE,
};
use rltk::RandomNumberGenerator;
use std::collections::HashSet;

fn grid(width: i32, height: i32, rows: &[&str]) -> TileMap {
    let n = (width * height) as usize;
    let mut tiles = Vec::new();
    for row in rows {
        for c in row.chars() {
            tiles.push(match c {
                '.' => TileType::Floor,
                '>' => TileType::DownStairs,
                _ => TileType::Wall,
            });
        }
    }
    assert_eq!(tiles.len(), n);
    TileMap {
        tiles,
        width,
        height,
        revealed_tiles: vec![false; n],
        visible_tiles: vec![false; n],
        blocked: vec![false; n],
        depth: 1,
        bloodstains: HashSet::new(),
        tile_content: vec![Vec::new(); n],
    }
}

fn rows(map: &TileMap) -> Vec<String> {
    (0..map.height)
        .map(|y| {
            (0..map.width)
                .map(|x| match map.tiles[map.xy_idx(x, y)] {
                    TileType::Floor => '.',
                    TileType::DownStairs => '>',
                    TileType::Wall => '#',
                })
                .collect()
        })
        .collect()
}

#[test]
fn constants_of_the_cave_builder() {
    assert_eq!(WALL_CHANCE, 55);
    assert_eq!(SMOOTHING_PASSES, 15);
    assert_eq!(SECTOR_WIDTH, 16);
    assert_eq!(SECTOR_HEIGHT, 10);
}

#[test]
fn initial_tile_is_wall_up_to_fifty_five() {
    assert_eq!(initial_tile(1), TileType::Wall);
    assert_eq!(initial_tile(55), TileType::Wall);
    assert_eq!(initial_tile(56), TileType::Floor);
    assert_eq!(initial_tile(100), TileType::Floor);
}

#[test]
fn fill_at_random_leaves_the_border_alone() {
    let mut rng = RandomNumberGenerator::seeded(1);
    let mut map = TileMap::new(1);
    map.tiles[0] = TileType::Floor;
    map.tiles[79] = TileType::DownStairs;
    fill_at_random(&mut map, &mut rng);
    assert_eq!(map.tiles[0], TileType::Floor);
    assert_eq!(map.tiles[79], TileType::DownStairs);
    for x in 1..79 {
        assert_eq!(map.tiles[map.xy_idx(x, 0)], TileType::Wall);
        assert_eq!(map.tiles[map.xy_idx(x, 39)], TileType::Wall);
    }
    for y in 1..39 {
        assert_eq!(map.tiles[map.xy_idx(0, y)], TileType::Wall);
        assert_eq!(map.tiles[map.xy_idx(79, y)], TileType::Wall);
    }
}

#[test]
fn fill_at_random_makes_a_little_over_half_of_the_interior_wall() {
    let mut rng = RandomNumberGenerator::seeded(12);
    let mut map = TileMap::new(1);
    fill_at_random(&mut map, &mut rng);
    let mut walls = 0;
    for y in 1..39 {
        for x in 1..79 {
            let t = map.tiles[map.xy_idx(x, y)];
            assert!(t == TileType::Wall || t == TileType::Floor);
            if t == TileType::Wall {
                walls += 1;
            }
        }
    }
    let share = walls as f64 / (78.0 * 38.0);
    assert!((share - 0.55).abs() < 0.05, "share of walls was {}", share);
}

#[test]
fn wall_neighbours_are_counted_all_around() {
    let map = grid(5, 5, &["#####", "#...#", "#.#.#", "#...#", "#####"]);
    assert_eq!(count_wall_neighbours(&map, 2, 2), 0);
    assert_eq!(count_wall_neighbours(&map, 1, 1), 6);
    assert_eq!(count_wall_neighbours(&map, 2, 1), 4);
    assert_eq!(count_wall_neighbours(&map, 3, 3), 6);
}

#[test]
fn wall_neighbours_outside_the_map_count_as_wall() {
    let map = grid(3, 3, &["...", "...", "..."]);
    assert_eq!(count_wall_neighbours(&map, 1, 1), 0);
    assert_eq!(count_wall_neighbours(&map, 0, 0), 5);
    assert_eq!(count_wall_neighbours(&map, 1, 0), 3);
    assert_eq!(count_wall_neighbours(&map, 2, 2), 5);
}

#[test]
fn wall_neighbours_do_not_count_stairs() {
    let map = grid(3, 3, &["#>#", "#.#", "###"]);
    assert_eq!(count_wall_neighbours(&map, 1, 1), 7);
}

#[test]
fn smooth_applies_the_rule_to_all_cells_at_once() {
    let mut map = grid(5, 5, &["#####", "#...#", "#...#", "#...#", "#####"]);
    smooth(&mut map);
    // corners of the room see five walls, its sides three, its middle none
    assert_eq!(rows(&map), vec!["#####", "##.##", "#.#.#", "##.##", "#####"]);
}

#[test]
fn smooth_walls_up_a_cell_without_any_wall_around_it() {
    let mut map = grid(
        7,
        7,
        &["#######", "#.....#", "#.....#", "#.....#", "#.....#", "#.....#", "#######"],
    );
    smooth(&mut map);
    assert_eq!(
        rows(&map),
        vec!["#######", "##...##", "#.###.#", "#.###.#", "#.###.#", "##...##", "#######"]
    );
}

#[test]
fn smooth_counts_the_wall_in_the_middle() {
    let mut map = grid(5, 5, &["#####", "#...#", "#.#.#", "#...#", "#####"]);
    smooth(&mut map);
    // the sides of the room now see four walls and stay floor
    assert_eq!(rows(&map), vec!["#####", "##.##", "#.#.#", "##.##", "#####"]);
}

#[test]
fn smooth_turns_wall_into_floor_where_few_walls_are_around() {
    let mut map = grid(
        8,
        7,
        &["########", "#......#", "#......#", "#..##..#", "#......#", "#......#", "########"],
    );
    smooth(&mut map);
    assert_eq!(map.tiles[map.xy_idx(3, 3)], TileType::Floor);
    assert_eq!(map.tiles[map.xy_idx(4, 3)], TileType::Floor);
    assert_eq!(
        rows(&map),
        vec!["########", "##....##", "#......#", "#......#", "#......#", "##....##", "########"]
    );
}

#[test]
fn smooth_leaves_the_border_alone() {
    let mut map = grid(4, 4, &["....", "....", "....", "...."]);
    smooth(&mut map);
    assert_eq!(rows(&map), vec!["....", ".##.", ".##.", "...."]);
}

#[test]
fn smooth_keeps_solid_rock() {
    let mut map = TileMap::new(1);
    smooth(&mut map);
    assert!(map.tiles.iter().all(|t| *t == TileType::Wall));
}

#[test]
fn nearest_floor_is_the_closest_by_straight_line() {
    let map = grid(5, 5, &["#####", "#...#", "#.#.#", "#..##", "#####"]);
    assert_eq!(nearest_floor(&map, 12), Some(7));
    assert_eq!(nearest_floor(&map, 24), Some(13));
    assert_eq!(nearest_floor(&map, 6), Some(6));
}

#[test]
fn nearest_floor_takes_the_lowest_index_among_equals() {
    let map = grid(5, 5, &["#####", "#.#.#", "#####", "#.#.#", "#####"]);
    assert_eq!(nearest_floor(&map, 12), Some(6));
}

#[test]
fn nearest_floor_of_solid_rock_is_none() {
    let map = grid(3, 3, &["###", "#>#", "###"]);
    assert_eq!(nearest_floor(&map, 4), None);
}

#[test]
fn farthest_marked_is_the_farthest_open_tile_that_is_marked() {
    let map = grid(5, 5, &["#####", "#...#", "#.#.#", "#...#", "#####"]);
    let all = vec![true; 25];
    assert_eq!(farthest_marked(&map, &all, 6), 18);
    assert_eq!(farthest_marked(&map, &all, 18), 6);
    let mut some = vec![true; 25];
    some[18] = false;
    // (3, 2) and (2, 3) are equally far from (1, 1): the lower index wins
    assert_eq!(farthest_marked(&map, &some, 6), 13);
    some[13] = false;
    some[17] = false;
    // now (3, 1) and (1, 3) are
    assert_eq!(farthest_marked(&map, &some, 6), 8);
}

#[test]
fn farthest_marked_alone_is_the_origin() {
    let map = grid(3, 3, &["###", "#.#", "###"]);
    assert_eq!(farthest_marked(&map, &vec![true; 9], 4), 4);
}

#[test]
fn cave_level_has_no_unreachable_floor() {
    for seed in 0..30 {
        let mut rng = RandomNumberGenerator::seeded(seed);
        let mut b = CellularAutomataBuilder::new(1);
        b.build_map(&mut rng);
        let map = b.get_map();
        let start = b.get_starting_position();
        let flags = flood_fill(&map, start.x, start.y);
        let unreachable =
            (0..3200).filter(|i| map.tiles[*i] != TileType::Wall && !flags[*i]).count();
        assert_eq!(unreachable, 0);
        assert_eq!(map.tiles.iter().filter(|t| **t == TileType::DownStairs).count(), 1);
        assert!(map.tiles[map.xy_idx(start.x, start.y)] != TileType::Wall);
        for i in 0..3200 {
            assert_eq!(map.blocked[i], map.tiles[i] == TileType::Wall);
        }
    }
}

#[test]
fn cave_border_is_never_floor() {
    for seed in 100..120 {
        let mut rng = RandomNumberGenerator::seeded(seed);
        let mut b = CellularAutomataBuilder::new(1);
        b.build_map(&mut rng);
        for x in 0..80 {
            assert_eq!(b.map.tiles[b.map.xy_idx(x, 0)], TileType::Wall);
            assert_eq!(b.map.tiles[b.map.xy_idx(x, 39)], TileType::Wall);
        }
        for y in 0..40 {
            assert_eq!(b.map.tiles[b.map.xy_idx(0, y)], TileType::Wall);
            assert_eq!(b.map.tiles[b.map.xy_idx(79, y)], TileType::Wall);
        }
    }
}

#[test]
fn cave_stairs_are_as_far_from_the_start_as_any_tile() {
    for seed in 0..20 {
        let mut rng = RandomNumberGenerator::seeded(seed);
        let mut b = CellularAutomataBuilder::new(1);
        b.build_map(&mut rng);
        let map = b.get_map();
        let start = b.get_starting_position();
        let start_idx = map.xy_idx(start.x, start.y);
        let stairs = (0..3200).find(|i| map.tiles[*i] == TileType::DownStairs).unwrap();
        let far = map.get_pathing_distance_squared(stairs, start_idx);
        for i in 0..3200 {
            if map.tiles[i] != TileType::Wall {
                assert!(map.get_pathing_distance_squared(i, start_idx) <= far);
            }
        }
    }
}

#[test]
fn cave_start_is_the_open_tile_nearest_to_the_middle() {
    let mut found = 0;
    for seed in 0..20 {
        let mut rng = RandomNumberGenerator::seeded(seed);
        let mut b = CellularAutomataBuilder::new(1);
        b.build_map(&mut rng);
        let start = b.get_starting_position();
        assert!(start.x >= 1 && start.x <= 78 && start.y >= 1 && start.y <= 38);
        if (start.x - 40).abs() <= 8 && (start.y - 20).abs() <= 8 {
            found += 1;
        }
    }
    assert!(found >= 15);
}

#[test]
fn cave_snapshots_show_every_step() {
    let mut rng = RandomNumberGenerator::seeded(4);
    let mut b = CellularAutomataBuilder::new(7);
    b.build_map(&mut rng);
    let history = b.get_snapshot_history();
    // the noise, fifteen smoothings, the cull and the finished level
    assert_eq!(history.len(), 1 + 15 + 1 + 1);
    assert_eq!(history[17].tiles, b.map.tiles);
    assert!(history.iter().all(|m| m.revealed_tiles == vec![true; 3200] && m.depth == 7));
}

#[test]
fn cave_spawns_land_on_floor() {
    let mut total = 0;
    for seed in 0..10 {
        let mut rng = RandomNumberGenerator::seeded(seed);
        let mut b = CellularAutomataBuilder::new(3);
        b.build_map(&mut rng);
        let plan = b.spawn_entities(&mut rng);
        total += plan.len();
        for idx in plan.keys() {
            assert_eq!(b.map.tiles[*idx], TileType::Floor);
        }
    }
    assert!(total > 0);
}

#[test]
fn new_cave_builder_holds_a_blank_level() {
    let b = CellularAutomataBuilder::new(2);
    assert_eq!(b.depth, 2);
    assert_eq!(b.get_starting_position(), Position { x: 0, y: 0 });
    assert!(b.get_map().tiles.iter().all(|t| *t == TileType::Wall));
}
