use mcguffin_quest::map::{TileMap, TileType};
use mcguffin_quest::map_builders::common::apply_room_to_map;
use mcguffin_quest::rect::Rect;
use mcguffin_quest::spawner::{
    room_floor_tiles, room_table, spawn_count, spawn_kind, spawn_region, spawn_room, spawn_rooms,
    SpawnKind, DEPTH_LIMIT, MAX_MONSTERS,
};
use rltk::RandomNumberGenerator;
use std::collections::HashMap;

const LABELS: [&str; 13] = [
    "Goblin",
    "Orc",
    "Health Potion",
    "Fireball Scroll",
    "Confusion Scroll",
    "Magic Missile Scroll",
    "Dagger",
    "Shield",
    "Longsword",
    "Tower Shield",
    "Rations",
    "Magic Mapping Scroll",
    "Bear Trap",
];

fn lines(depth: i32) -> Vec<(String, i32)> {
    room_table(depth).entries.iter().map(|e| (e.name.clone(), e.weight)).collect()
}

#[test]
fn constants_of_the_spawner() {
    assert_eq!(MAX_MONSTERS, 4);
    assert_eq!(DEPTH_LIMIT, 429_496_720);
}

#[test]
fn room_table_at_depth_one_has_no_swords_or_tower_shields() {
    let expected: Vec<(String, i32)> = vec![
        ("Goblin", 10),
        ("Orc", 2),
        ("Health Potion", 7),
        ("Fireball Scroll", 3),
        ("Confusion Scroll", 3),
        ("Magic Missile Scroll", 4),
        ("Dagger", 3),
        ("Shield", 3),
        ("Rations", 10),
        ("Magic Mapping Scroll", 2),
        ("Bear Trap", 2),
    ]
    .into_iter()
    .map(|(n, w)| (n.to_string(), w))
    .collect();
    assert_eq!(lines(1), expected);
    assert_eq!(room_table(1).total_weight(1), 49);
}

#[test]
fn room_table_grows_with_depth() {
    let table = lines(3);
    assert_eq!(table.len(), 13);
    let names: Vec<&str> = table.iter().map(|l| l.0.as_str()).collect();
    assert_eq!(names, LABELS.to_vec());
    let weights: Vec<i32> = table.iter().map(|l| l.1).collect();
    assert_eq!(weights, vec![10, 4, 7, 5, 5, 4, 3, 3, 2, 2, 10, 2, 2]);
    assert_eq!(room_table(3).total_weight(3), 59);
}

#[test]
fn room_table_far_above_ground_keeps_the_fixed_lines() {
    let table = lines(-5);
    let names: Vec<&str> = table.iter().map(|l| l.0.as_str()).collect();
    assert_eq!(
        names,
        vec![
            "Goblin",
            "Health Potion",
            "Magic Missile Scroll",
            "Dagger",
            "Shield",
            "Rations",
            "Magic Mapping Scroll",
            "Bear Trap"
        ]
    );
    assert_eq!(room_table(-5).total_weight(-5), 41);
}

#[test]
fn room_table_at_the_depth_limit_fits() {
    let t = room_table(DEPTH_LIMIT);
    assert_eq!(t.total_weight(DEPTH_LIMIT), 44 + 5 * DEPTH_LIMIT);
    assert_eq!(t.total_weight(DEPTH_LIMIT), i32::MAX - 3);
    assert_eq!(room_table(-DEPTH_LIMIT).total_weight(0), 41);
    assert_eq!(room_table(i32::MIN + 1).total_weight(0), 41);
}

#[test]
fn room_table_is_open_at_every_depth() {
    assert!(room_table(2).entries.iter().all(|e| e.min_depth == i32::MIN));
}

#[test]
fn spawn_count_is_roll_plus_depth_minus_four() {
    assert_eq!(spawn_count(10, 7, 1), 4);
    assert_eq!(spawn_count(10, 4, 1), 1);
    assert_eq!(spawn_count(10, 3, 5), 4);
    assert_eq!(spawn_count(100, 7, 10), 13);
}

#[test]
fn spawn_count_is_never_negative() {
    assert_eq!(spawn_count(10, 1, 1), 0);
    assert_eq!(spawn_count(10, 3, 1), 0);
    assert_eq!(spawn_count(10, 7, -20), 0);
}

#[test]
fn spawn_count_is_at_most_the_number_of_tiles() {
    assert_eq!(spawn_count(2, 7, 1), 2);
    assert_eq!(spawn_count(0, 7, 1), 0);
    assert_eq!(spawn_count(5, 7, DEPTH_LIMIT), 5);
}

#[test]
fn spawn_kind_knows_every_thing() {
    let kinds = [
        ("Goblin", SpawnKind::Goblin),
        ("Orc", SpawnKind::Orc),
        ("Health Potion", SpawnKind::HealthPotion),
        ("Fireball Scroll", SpawnKind::FireballScroll),
        ("Confusion Scroll", SpawnKind::ConfusionScroll),
        ("Magic Missile Scroll", SpawnKind::MagicMissileScroll),
        ("Dagger", SpawnKind::Dagger),
        ("Shield", SpawnKind::Shield),
        ("Longsword", SpawnKind::Longsword),
        ("Tower Shield", SpawnKind::TowerShield),
        ("Rations", SpawnKind::Rations),
        ("Magic Mapping Scroll", SpawnKind::MagicMappingScroll),
        ("Bear Trap", SpawnKind::BearTrap),
    ];
    for (label, kind) in kinds.iter() {
        assert_eq!(spawn_kind(&label.to_string()), Some(*kind));
    }
}

#[test]
fn every_label_of_the_room_table_stands_for_a_thing() {
    for depth in [-3, 0, 1, 2, 5, 100].iter() {
        for entry in room_table(*depth).entries.iter() {
            assert!(spawn_kind(&entry.name).is_some(), "{} stands for nothing", entry.name);
        }
    }
    let shield = room_table(1).entries.iter().find(|e| e.name == "Shield").unwrap().name.clone();
    assert_eq!(spawn_kind(&shield), Some(SpawnKind::Shield));
}

#[test]
fn spawn_count_takes_any_roll_and_depth() {
    assert_eq!(spawn_count(10, i32::MAX, i32::MAX), 10);
    assert_eq!(spawn_count(10, i32::MIN, i32::MIN), 0);
    assert_eq!(spawn_count(usize::MAX, 7, i32::MAX), i32::MAX as usize + 3);
}

#[test]
fn spawn_kind_of_an_unknown_label_is_nothing() {
    assert_eq!(spawn_kind(&"Dragon".to_string()), None);
    assert_eq!(spawn_kind(&"".to_string()), None);
    assert_eq!(spawn_kind(&"goblin".to_string()), None);
    assert_eq!(spawn_kind(&"shield".to_string()), None);
    assert_eq!(spawn_kind(&"Goblin ".to_string()), None);
}

#[test]
fn room_floor_tiles_are_strictly_inside_in_rising_order() {
    let mut map = TileMap::new(1);
    let room = Rect::new(2, 2, 4, 3);
    apply_room_to_map(&mut map, &room);
    // carved: x 3..=6, y 3..=5; strictly inside: x 3..=5, y 3..=4
    let tiles = room_floor_tiles(&map, &room);
    assert_eq!(tiles, vec![243, 244, 245, 323, 324, 325]);
}

#[test]
fn room_floor_tiles_leave_out_what_is_not_floor() {
    let mut map = TileMap::new(1);
    let room = Rect::new(2, 2, 4, 3);
    apply_room_to_map(&mut map, &room);
    map.tiles[244] = TileType::Wall;
    map.tiles[323] = TileType::DownStairs;
    assert_eq!(room_floor_tiles(&map, &room), vec![243, 245, 324, 325]);
}

#[test]
fn room_floor_tiles_of_a_thin_room_are_none() {
    let mut map = TileMap::new(1);
    let room = Rect::new(2, 2, 1, 5);
    apply_room_to_map(&mut map, &room);
    assert!(room_floor_tiles(&map, &room).is_empty());
    let flat = Rect { x1: 5, y1: 5, x2: 3, y2: 9 };
    assert!(room_floor_tiles(&map, &flat).is_empty());
}

#[test]
fn room_floor_tiles_of_a_room_that_sticks_out_of_the_map() {
    let mut map = TileMap::new(1);
    map.tiles = vec![TileType::Floor; 3200];
    let corner = Rect { x1: 77, y1: 37, x2: 200, y2: 90 };
    assert_eq!(room_floor_tiles(&map, &corner), vec![3118, 3119, 3198, 3199]);
    let other = Rect { x1: -50, y1: -50, x2: 2, y2: 1 };
    assert_eq!(room_floor_tiles(&map, &other), vec![0, 1]);
    let outside = Rect { x1: 100, y1: 100, x2: 120, y2: 120 };
    assert!(room_floor_tiles(&map, &outside).is_empty());
    let huge = Rect { x1: i32::MIN, y1: i32::MIN, x2: i32::MAX, y2: i32::MAX };
    assert_eq!(room_floor_tiles(&map, &huge).len(), 3200);
}

#[test]
fn room_floor_tiles_of_the_whole_map() {
    let mut map = TileMap::new(1);
    map.tiles = vec![TileType::Floor; 3200];
    let whole = Rect { x1: -1, y1: -1, x2: 80, y2: 40 };
    let tiles = room_floor_tiles(&map, &whole);
    assert_eq!(tiles, (0..3200).collect::<Vec<usize>>());
}

#[test]
fn spawn_region_picks_distinct_tiles_of_the_area() {
    let area: Vec<usize> = (100..140).collect();
    for seed in 0..50 {
        let mut rng = RandomNumberGenerator::seeded(seed);
        let mut plan = HashMap::new();
        spawn_region(&mut plan, &area, 3, &mut rng);
        // the die shows 1 to 7, the depth adds 2, 3 are taken off
        assert!(plan.len() <= 6);
        for (idx, label) in plan.iter() {
            assert!(area.contains(idx));
            assert!(LABELS.contains(&label.as_str()));
        }
    }
}

#[test]
fn spawn_region_spawns_as_many_as_the_count_says() {
    let area: Vec<usize> = (0..100).collect();
    let mut seen = [false; 8];
    for seed in 0..200 {
        let mut rng = RandomNumberGenerator::seeded(seed);
        let mut check = RandomNumberGenerator::seeded(seed);
        let roll = check.roll_dice(1, 7);
        let mut plan = HashMap::new();
        spawn_region(&mut plan, &area, 4, &mut rng);
        assert_eq!(plan.len(), spawn_count(100, roll, 4));
        assert_eq!(plan.len() as i32, roll);
        seen[plan.len()] = true;
    }
    assert_eq!(seen, [false, true, true, true, true, true, true, true]);
}

#[test]
fn spawn_region_never_spawns_more_than_there_are_tiles() {
    let area = [7usize, 9];
    for seed in 0..50 {
        let mut rng = RandomNumberGenerator::seeded(seed);
        let mut plan = HashMap::new();
        spawn_region(&mut plan, &area, 20, &mut rng);
        assert_eq!(plan.len(), 2);
        assert!(plan.contains_key(&7) && plan.contains_key(&9));
    }
}

#[test]
fn spawn_region_of_one_tile() {
    let mut rng = RandomNumberGenerator::seeded(1);
    let mut plan = HashMap::new();
    spawn_region(&mut plan, &[42], 10, &mut rng);
    assert_eq!(plan.len(), 1);
    assert!(plan.contains_key(&42));
}

#[test]
fn spawn_region_of_no_tiles_spawns_nothing() {
    let mut rng = RandomNumberGenerator::seeded(1);
    let mut plan = HashMap::new();
    spawn_region(&mut plan, &[], 10, &mut rng);
    assert!(plan.is_empty());
}

#[test]
fn spawn_region_above_ground_spawns_nothing() {
    let area: Vec<usize> = (0..100).collect();
    for seed in 0..20 {
        let mut rng = RandomNumberGenerator::seeded(seed);
        let mut plan = HashMap::new();
        spawn_region(&mut plan, &area, -3, &mut rng);
        assert!(plan.is_empty());
    }
}

#[test]
fn spawn_region_keeps_what_was_planned_elsewhere() {
    let mut rng = RandomNumberGenerator::seeded(5);
    let mut plan = HashMap::new();
    plan.insert(3000usize, "Kept".to_string());
    spawn_region(&mut plan, &[1, 2, 3], 10, &mut rng);
    assert_eq!(plan.len(), 4);
    assert_eq!(plan[&3000], "Kept");
}

#[test]
fn spawn_region_never_rolls_a_label_without_weight() {
    let area: Vec<usize> = (0..100).collect();
    for seed in 0..300 {
        let mut rng = RandomNumberGenerator::seeded(seed);
        let mut plan = HashMap::new();
        spawn_region(&mut plan, &area, 1, &mut rng);
        for label in plan.values() {
            assert!(label != "Longsword" && label != "Tower Shield");
        }
    }
}

#[test]
fn spawn_room_uses_floor_tiles_strictly_inside_the_room() {
    let mut map = TileMap::new(1);
    let room = Rect::new(10, 10, 8, 6);
    apply_room_to_map(&mut map, &room);
    let inside = room_floor_tiles(&map, &room);
    assert_eq!(inside.len(), 7 * 5);
    for seed in 0..50 {
        let mut rng = RandomNumberGenerator::seeded(seed);
        let mut plan = HashMap::new();
        spawn_room(&mut plan, &map, &room, 2, &mut rng);
        assert!(plan.len() <= 5);
        for idx in plan.keys() {
            assert!(inside.contains(idx));
            assert_eq!(map.tiles[*idx], TileType::Floor);
        }
    }
}

#[test]
fn spawn_room_spawns_at_least_what_the_depth_asks_for() {
    let mut map = TileMap::new(1);
    let room = Rect::new(10, 10, 8, 6);
    apply_room_to_map(&mut map, &room);
    let inside = room_floor_tiles(&map, &room);
    assert_eq!(inside.len(), 35);
    for seed in 0..50 {
        let mut rng = RandomNumberGenerator::seeded(seed);
        let mut plan = HashMap::new();
        plan.insert(inside[0], "Kept".to_string());
        plan.insert(5usize, "Elsewhere".to_string());
        spawn_room(&mut plan, &map, &room, 10, &mut rng);
        // the die shows 1 to 7, the depth adds 9, 3 are taken off
        let in_room = plan.keys().filter(|k| inside.contains(*k)).count();
        assert!(in_room >= 7);
        assert!(plan.len() <= 2 + 13);
        assert_eq!(plan[&5], "Elsewhere");
    }
}

#[test]
fn spawn_room_fills_a_small_room_at_great_depth() {
    let mut map = TileMap::new(1);
    let room = Rect::new(10, 10, 3, 3);
    apply_room_to_map(&mut map, &room);
    let inside = room_floor_tiles(&map, &room);
    assert_eq!(inside.len(), 4);
    let mut rng = RandomNumberGenerator::seeded(9);
    let mut plan = HashMap::new();
    spawn_room(&mut plan, &map, &room, 30, &mut rng);
    let mut keys: Vec<usize> = plan.keys().cloned().collect();
    keys.sort();
    assert_eq!(keys, inside);
}

#[test]
fn spawn_room_without_floor_spawns_nothing() {
    let map = TileMap::new(1);
    let mut rng = RandomNumberGenerator::seeded(3);
    let mut plan = HashMap::new();
    spawn_room(&mut plan, &map, &Rect::new(10, 10, 8, 6), 9, &mut rng);
    assert!(plan.is_empty());
}

#[test]
fn spawn_rooms_leaves_the_first_room_alone() {
    let mut map = TileMap::new(1);
    let rooms = vec![Rect::new(2, 2, 8, 8), Rect::new(20, 2, 8, 8), Rect::new(40, 20, 8, 8)];
    for room in rooms.iter() {
        apply_room_to_map(&mut map, room);
    }
    let first = room_floor_tiles(&map, &rooms[0]);
    let mut later = room_floor_tiles(&map, &rooms[1]);
    later.extend(room_floor_tiles(&map, &rooms[2]));
    let mut total = 0;
    for seed in 0..50 {
        let mut rng = RandomNumberGenerator::seeded(seed);
        let plan = spawn_rooms(&map, &rooms, 5, &mut rng);
        total += plan.len();
        for idx in plan.keys() {
            assert!(!first.contains(idx));
            assert!(later.contains(idx));
        }
    }
    assert!(total > 0);
}

#[test]
fn spawn_rooms_gives_every_later_room_its_share() {
    let mut map = TileMap::new(1);
    let rooms = vec![Rect::new(2, 2, 8, 8), Rect::new(20, 2, 8, 8), Rect::new(40, 20, 3, 3)];
    for room in rooms.iter() {
        apply_room_to_map(&mut map, room);
    }
    let second = room_floor_tiles(&map, &rooms[1]);
    let third = room_floor_tiles(&map, &rooms[2]);
    assert_eq!(third.len(), 4);
    for seed in 0..50 {
        let mut rng = RandomNumberGenerator::seeded(seed);
        let plan = spawn_rooms(&map, &rooms, 6, &mut rng);
        // at depth 6 the lowest roll gives 1 + 5 - 3 = 3 things
        assert!(plan.keys().filter(|k| second.contains(*k)).count() >= 3);
        assert!(plan.keys().filter(|k| third.contains(*k)).count() >= 3);
        for label in plan.values() {
            assert!(spawn_kind(label).is_some());
        }
    }
}

#[test]
fn spawn_rooms_of_one_room_spawns_nothing() {
    let mut map = TileMap::new(1);
    let rooms = vec![Rect::new(2, 2, 8, 8)];
    apply_room_to_map(&mut map, &rooms[0]);
    let mut rng = RandomNumberGenerator::seeded(1);
    assert!(spawn_rooms(&map, &rooms, 9, &mut rng).is_empty());
}
