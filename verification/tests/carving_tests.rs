use mcguffin_quest::map::{Position, TileMap, TileType};
use mcguffin_quest::map_builders::common::{
    add_linked_room, apply_horizontal_tunnel, apply_room_to_map, apply_vertical_tunnel,
    draw_corridor, finish_rooms, place_stairs, set_tile, SnapshotRecorder,
};
use mcguffin_quest::rect::Rect;

fn floor_cells(map: &TileMap) -> Vec<(i32, i32)> {
    let mut cells = Vec::new();
    for y in 0..map.height {
        for x in 0..map.width {
            if map.tiles[map.xy_idx(x, y)] == TileType::Floor {
                cells.push((x, y));
            }
        }
    }
    cells
}

#[test]
fn set_tile_changes_one_tile() {
    let mut map = TileMap::new(1);
    set_tile(&mut map, 3, 2, TileType::Floor);
    assert_eq!(floor_cells(&map), vec![(3, 2)]);
    set_tile(&mut map, 3, 2, TileType::DownStairs);
    assert_eq!(map.tiles[163], TileType::DownStairs);
    assert!(floor_cells(&map).is_empty());
}

#[test]
fn room_is_carved_right_of_and_below_its_first_corner() {
    let mut map = TileMap::new(1);
    apply_room_to_map(&mut map, &Rect::new(2, 3, 3, 2));
    assert_eq!(floor_cells(&map), vec![(3, 4), (4, 4), (5, 4), (3, 5), (4, 5), (5, 5)]);
}

#[test]
fn room_changes_nothing_but_tiles() {
    let mut map = TileMap::new(4);
    apply_room_to_map(&mut map, &Rect::new(10, 10, 5, 5));
    assert_eq!(map.depth, 4);
    assert_eq!(map.blocked, vec![false; 3200]);
    assert_eq!(map.revealed_tiles, vec![false; 3200]);
    assert_eq!(map.visible_tiles, vec![false; 3200]);
    assert_eq!(floor_cells(&map).len(), 25);
}

#[test]
fn room_outside_the_map_is_cut_off() {
    let mut map = TileMap::new(1);
    apply_room_to_map(&mut map, &Rect { x1: 76, y1: 37, x2: 90, y2: 50 });
    assert_eq!(floor_cells(&map), vec![(77, 38), (78, 38), (79, 38), (77, 39), (78, 39), (79, 39)]);
    let mut other = TileMap::new(1);
    apply_room_to_map(&mut other, &Rect { x1: -10, y1: -10, x2: 1, y2: 0 });
    assert_eq!(floor_cells(&other), vec![(0, 0), (1, 0)]);
}

#[test]
fn room_without_extent_carves_nothing() {
    let mut map = TileMap::new(1);
    apply_room_to_map(&mut map, &Rect { x1: 5, y1: 5, x2: 5, y2: 9 });
    apply_room_to_map(&mut map, &Rect { x1: 9, y1: 5, x2: 3, y2: 9 });
    apply_room_to_map(&mut map, &Rect { x1: i32::MAX, y1: 0, x2: i32::MAX, y2: 9 });
    apply_room_to_map(&mut map, &Rect { x1: 100, y1: 100, x2: 110, y2: 110 });
    assert!(floor_cells(&map).is_empty());
}

#[test]
fn horizontal_tunnel_runs_in_either_direction() {
    let mut a = TileMap::new(1);
    apply_horizontal_tunnel(&mut a, 3, 6, 2);
    let mut b = TileMap::new(1);
    apply_horizontal_tunnel(&mut b, 6, 3, 2);
    assert_eq!(floor_cells(&a), vec![(3, 2), (4, 2), (5, 2), (6, 2)]);
    assert_eq!(a.tiles, b.tiles);
}

#[test]
fn vertical_tunnel_runs_in_either_direction() {
    let mut a = TileMap::new(1);
    apply_vertical_tunnel(&mut a, 1, 3, 7);
    let mut b = TileMap::new(1);
    apply_vertical_tunnel(&mut b, 3, 1, 7);
    assert_eq!(floor_cells(&a), vec![(7, 1), (7, 2), (7, 3)]);
    assert_eq!(a.tiles, b.tiles);
}

#[test]
fn tunnels_of_one_cell() {
    let mut map = TileMap::new(1);
    apply_horizontal_tunnel(&mut map, 4, 4, 4);
    apply_vertical_tunnel(&mut map, 9, 9, 9);
    assert_eq!(floor_cells(&map), vec![(4, 4), (9, 9)]);
}

#[test]
fn tunnels_pass_over_what_lies_outside_the_map() {
    let mut map = TileMap::new(1);
    apply_horizontal_tunnel(&mut map, -5, 100, 3);
    assert_eq!(floor_cells(&map).len(), 80);
    assert!(floor_cells(&map).iter().all(|c| c.1 == 3));
    apply_vertical_tunnel(&mut map, -3, 50, 200);
    apply_vertical_tunnel(&mut map, 0, 10, -1);
    apply_horizontal_tunnel(&mut map, 0, 10, 40);
    apply_horizontal_tunnel(&mut map, i32::MIN, i32::MAX, -1);
    assert_eq!(floor_cells(&map).len(), 80);
    apply_vertical_tunnel(&mut map, i32::MIN, i32::MAX, 0);
    assert_eq!(floor_cells(&map).len(), 80 + 39);
}

#[test]
fn corridor_goes_along_the_row_then_along_the_column() {
    let mut map = TileMap::new(1);
    draw_corridor(&mut map, 2, 2, 5, 4);
    assert_eq!(floor_cells(&map), vec![(2, 2), (3, 2), (4, 2), (5, 2), (5, 3), (5, 4)]);
}

#[test]
fn corridor_backwards_and_upwards() {
    let mut map = TileMap::new(1);
    draw_corridor(&mut map, 5, 4, 2, 2);
    assert_eq!(floor_cells(&map), vec![(2, 2), (2, 3), (2, 4), (3, 4), (4, 4), (5, 4)]);
}

#[test]
fn corridor_between_equal_points_is_one_cell() {
    let mut map = TileMap::new(1);
    draw_corridor(&mut map, 6, 6, 6, 6);
    assert_eq!(floor_cells(&map), vec![(6, 6)]);
}

#[test]
fn corridor_with_an_end_outside_the_map_does_not_fail() {
    let mut map = TileMap::new(1);
    draw_corridor(&mut map, 77, 38, 85, 45);
    assert_eq!(floor_cells(&map), vec![(77, 38), (78, 38), (79, 38)]);
}

#[test]
fn first_room_is_carved_without_tunnels() {
    let mut map = TileMap::new(1);
    let mut rooms = Vec::new();
    add_linked_room(&mut map, &mut rooms, Rect::new(5, 5, 4, 3), true);
    assert_eq!(rooms, vec![Rect::new(5, 5, 4, 3)]);
    assert_eq!(floor_cells(&map).len(), 12);
}

#[test]
fn second_room_is_linked_row_first() {
    let mut map = TileMap::new(1);
    let mut rooms = Vec::new();
    add_linked_room(&mut map, &mut rooms, Rect::new(2, 2, 4, 4), true);
    add_linked_room(&mut map, &mut rooms, Rect::new(20, 20, 4, 4), true);
    assert_eq!(rooms.len(), 2);
    // centers are (4, 4) and (22, 22): the row of the first, the column of the second
    for x in 4..=22 {
        assert_eq!(map.tiles[map.xy_idx(x, 4)], TileType::Floor);
    }
    for y in 4..=22 {
        assert_eq!(map.tiles[map.xy_idx(22, y)], TileType::Floor);
    }
    assert_eq!(map.tiles[map.xy_idx(4, 10)], TileType::Wall);
    // 16 cells per room, 19 per tunnel; 3 tunnel cells lie in the first room,
    // 2 in the second, and the two tunnels share their corner
    assert_eq!(floor_cells(&map).len(), 16 + 16 + 19 + 19 - 3 - 2 - 1);
}

#[test]
fn second_room_is_linked_column_first() {
    let mut map = TileMap::new(1);
    let mut rooms = Vec::new();
    add_linked_room(&mut map, &mut rooms, Rect::new(2, 2, 4, 4), false);
    add_linked_room(&mut map, &mut rooms, Rect::new(20, 20, 4, 4), false);
    for y in 4..=22 {
        assert_eq!(map.tiles[map.xy_idx(4, y)], TileType::Floor);
    }
    for x in 4..=22 {
        assert_eq!(map.tiles[map.xy_idx(x, 22)], TileType::Floor);
    }
    assert_eq!(map.tiles[map.xy_idx(10, 4)], TileType::Wall);
}

#[test]
fn place_stairs_puts_the_only_stairs() {
    let mut map = TileMap::new(1);
    apply_room_to_map(&mut map, &Rect::new(2, 2, 4, 4));
    place_stairs(&mut map, 4, 4);
    let stairs: Vec<usize> =
        (0..3200).filter(|i| map.tiles[*i] == TileType::DownStairs).collect();
    assert_eq!(stairs, vec![map.xy_idx(4, 4)]);
    assert_eq!(floor_cells(&map).len(), 15);
}

#[test]
fn finish_rooms_sets_start_stairs_and_blocked() {
    let mut map = TileMap::new(1);
    let mut rooms = Vec::new();
    add_linked_room(&mut map, &mut rooms, Rect::new(2, 2, 4, 4), true);
    add_linked_room(&mut map, &mut rooms, Rect::new(20, 20, 6, 4), true);
    let start = finish_rooms(&mut map, &rooms);
    assert_eq!(start, Position { x: 4, y: 4 });
    assert_eq!(map.tiles[map.xy_idx(4, 4)], TileType::Floor);
    assert_eq!(map.tiles[map.xy_idx(23, 22)], TileType::DownStairs);
    assert_eq!(map.tiles.iter().filter(|t| **t == TileType::DownStairs).count(), 1);
    for i in 0..3200 {
        assert_eq!(map.blocked[i], map.tiles[i] == TileType::Wall);
    }
}

#[test]
fn finish_rooms_with_one_room_puts_the_stairs_on_the_start() {
    let mut map = TileMap::new(1);
    let mut rooms = Vec::new();
    add_linked_room(&mut map, &mut rooms, Rect::new(2, 2, 4, 4), true);
    let start = finish_rooms(&mut map, &rooms);
    assert_eq!(start, Position { x: 4, y: 4 });
    assert_eq!(map.tiles[map.xy_idx(4, 4)], TileType::DownStairs);
}

#[test]
fn recorder_keeps_fully_revealed_copies() {
    let mut recorder = SnapshotRecorder::new(true);
    let mut map = TileMap::new(2);
    recorder.record(&map);
    set_tile(&mut map, 1, 1, TileType::Floor);
    recorder.record(&map);
    assert_eq!(recorder.history.len(), 2);
    assert_eq!(recorder.history[0].tiles[81], TileType::Wall);
    assert_eq!(recorder.history[1].tiles[81], TileType::Floor);
    for snapshot in recorder.history.iter() {
        assert_eq!(snapshot.revealed_tiles, vec![true; 3200]);
        assert_eq!(snapshot.depth, 2);
        assert_eq!(snapshot.width, 80);
    }
    assert_eq!(map.revealed_tiles, vec![false; 3200]);
}

#[test]
fn recorder_that_is_off_keeps_nothing() {
    let mut recorder = SnapshotRecorder::new(false);
    recorder.record(&TileMap::new(1));
    assert!(recorder.history.is_empty());
    assert!(recorder.snapshots().is_empty());
    assert!(!recorder.enabled);
}

#[test]
fn snapshots_are_copies_in_order() {
    let mut recorder = SnapshotRecorder::new(true);
    recorder.record(&TileMap::new(1));
    recorder.record(&TileMap::new(2));
    let copies = recorder.snapshots();
    assert_eq!(copies.len(), 2);
    assert_eq!(copies[0].depth, 1);
    assert_eq!(copies[1].depth, 2);
    assert_eq!(recorder.history.len(), 2);
}
