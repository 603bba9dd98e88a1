use crate::dice::roll_die;
use crate::map::{
    lemma_index_round_trip, lemma_index_to_cell, TileMap, TileMapView, TileType,
};
use crate::random_table::{
    lemma_total_with_line, total_weight, with_line, RandomTable, TableLine,
};
use crate::rect::Rect;
use std::collections::HashMap;
use vstd::prelude::*;

verus! {

/// The most things that a region gets at depth one.
pub const MAX_MONSTERS: i32 = 4;

/// The deepest level at which the room table can be rolled: one level
/// deeper, and its total weight is more than a die can have sides.
pub const DEPTH_LIMIT: i32 = 429_496_720;

/// What a label of the spawn table stands for.
#[derive(PartialEq, Eq, Structural, Copy, Clone, Debug)]
pub enum SpawnKind {
    Goblin,
    Orc,
    HealthPotion,
    FireballScroll,
    ConfusionScroll,
    MagicMissileScroll,
    Dagger,
    Shield,
    Longsword,
    TowerShield,
    Rations,
    MagicMappingScroll,
    BearTrap,
}

/// The room table of this depth can be rolled: its total weight fits a
/// die, and the depth itself the arithmetic of the machine.
pub open spec fn depth_in_range(depth: int) -> bool {
    i32::MIN < depth <= DEPTH_LIMIT
}

/// The table of what a room may hold at `depth`: the deeper, the more
/// orcs and scrolls, and from the second level on swords and tower shields.
pub open spec fn room_lines(depth: int) -> Seq<TableLine> {
    let always = i32::MIN as int;
    let t0 = Seq::<TableLine>::empty();
    let t1 = with_line(t0, "Goblin"@, 10, always);
    let t2 = with_line(t1, "Orc"@, 1 + depth, always);
    let t3 = with_line(t2, "Health Potion"@, 7, always);
    let t4 = with_line(t3, "Fireball Scroll"@, 2 + depth, always);
    let t5 = with_line(t4, "Confusion Scroll"@, 2 + depth, always);
    let t6 = with_line(t5, "Magic Missile Scroll"@, 4, always);
    let t7 = with_line(t6, "Dagger"@, 3, always);
    let t8 = with_line(t7, "Shield"@, 3, always);
    let t9 = with_line(t8, "Longsword"@, depth - 1, always);
    let t10 = with_line(t9, "Tower Shield"@, depth - 1, always);
    let t11 = with_line(t10, "Rations"@, 10, always);
    let t12 = with_line(t11, "Magic Mapping Scroll"@, 2, always);
    with_line(t12, "Bear Trap"@, 2, always)
}

pub open spec fn at_least_zero(n: int) -> int {
    if n > 0 {
        n
    } else {
        0
    }
}

/// The total weight of the room table does not depend on the depth at
/// which it is rolled, only on the depth for which it was made.
pub proof fn lemma_room_table_total(depth: int, rolled_at: int)
    requires
        rolled_at >= i32::MIN,
    ensures
        total_weight(room_lines(depth), rolled_at) == 41 + at_least_zero(1 + depth) + 2
            * at_least_zero(2 + depth) + 2 * at_least_zero(depth - 1),
{
    let always = i32::MIN as int;
    let t0 = Seq::<TableLine>::empty();
    let t1 = with_line(t0, "Goblin"@, 10, always);
    let t2 = with_line(t1, "Orc"@, 1 + depth, always);
    let t3 = with_line(t2, "Health Potion"@, 7, always);
    let t4 = with_line(t3, "Fireball Scroll"@, 2 + depth, always);
    let t5 = with_line(t4, "Confusion Scroll"@, 2 + depth, always);
    let t6 = with_line(t5, "Magic Missile Scroll"@, 4, always);
    let t7 = with_line(t6, "Dagger"@, 3, always);
    let t8 = with_line(t7, "Shield"@, 3, always);
    let t9 = with_line(t8, "Longsword"@, depth - 1, always);
    let t10 = with_line(t9, "Tower Shield"@, depth - 1, always);
    let t11 = with_line(t10, "Rations"@, 10, always);
    let t12 = with_line(t11, "Magic Mapping Scroll"@, 2, always);
    assert(total_weight(t0, rolled_at) == 0);
    lemma_total_with_line(t0, "Goblin"@, 10, always, rolled_at);
    lemma_total_with_line(t1, "Orc"@, 1 + depth, always, rolled_at);
    lemma_total_with_line(t2, "Health Potion"@, 7, always, rolled_at);
    lemma_total_with_line(t3, "Fireball Scroll"@, 2 + depth, always, rolled_at);
    lemma_total_with_line(t4, "Confusion Scroll"@, 2 + depth, always, rolled_at);
    lemma_total_with_line(t5, "Magic Missile Scroll"@, 4, always, rolled_at);
    lemma_total_with_line(t6, "Dagger"@, 3, always, rolled_at);
    lemma_total_with_line(t7, "Shield"@, 3, always, rolled_at);
    lemma_total_with_line(t8, "Longsword"@, depth - 1, always, rolled_at);
    lemma_total_with_line(t9, "Tower Shield"@, depth - 1, always, rolled_at);
    lemma_total_with_line(t10, "Rations"@, 10, always, rolled_at);
    lemma_total_with_line(t11, "Magic Mapping Scroll"@, 2, always, rolled_at);
    lemma_total_with_line(t12, "Bear Trap"@, 2, always, rolled_at);
}

/// The table of what a room may hold at `map_depth`. The depth must leave
/// room for the weights that grow with it.
pub fn room_table(map_depth: i32) -> (table: RandomTable)
    requires
        i32::MIN < map_depth <= i32::MAX - 2,
    ensures
        table@ == room_lines(map_depth as int),
{
    RandomTable::new().add("Goblin", 10).add("Orc", 1 + map_depth).add("Health Potion", 7).add(
        "Fireball Scroll",
        2 + map_depth,
    ).add("Confusion Scroll", 2 + map_depth).add("Magic Missile Scroll", 4).add("Dagger", 3).add(
        "Shield",
        3,
    ).add("Longsword", map_depth - 1).add("Tower Shield", map_depth - 1).add("Rations", 10).add(
        "Magic Mapping Scroll",
        2,
    ).add("Bear Trap", 2)
}

/// `label` is a label of the table that can be rolled at `depth`.
pub open spec fn label_in_table(label: Seq<char>, lines: Seq<TableLine>, depth: int) -> bool {
    exists|i: int|
        0 <= i < lines.len() && (#[trigger] lines[i]).effective_weight(depth) > 0 && label
            == lines[i].name
}

/// How many things a region of `candidates` tiles gets, by the roll of
/// the die and the depth: the roll, one more per level below the first,
/// three fewer to begin with; never more than there are tiles, never less
/// than none.
pub open spec fn spawn_count_for(candidates: int, roll: int, depth: int) -> int {
    let wanted = roll + (depth - 1) - 3;
    if wanted <= 0 {
        0
    } else if wanted < candidates {
        wanted
    } else {
        candidates
    }
}

/// How many things a region of `candidates` tiles gets, by the roll of
/// the die and the depth.
pub fn spawn_count(candidates: usize, roll: i32, map_depth: i32) -> (n: usize)
    ensures
        n == spawn_count_for(candidates as int, roll as int, map_depth as int),
{
    let wanted: i64 = roll as i64 + (map_depth as i64 - 1) - 3;
    if wanted <= 0 {
        0
    } else if (wanted as u64) < candidates as u64 {
        wanted as usize
    } else {
        candidates
    }
}

/// What a label of the spawn table stands for, if anything.
pub open spec fn kind_of_label(label: Seq<char>) -> Option<SpawnKind> {
    if label == "Goblin"@ {
        Some(SpawnKind::Goblin)
    } else if label == "Orc"@ {
        Some(SpawnKind::Orc)
    } else if label == "Health Potion"@ {
        Some(SpawnKind::HealthPotion)
    } else if label == "Fireball Scroll"@ {
        Some(SpawnKind::FireballScroll)
    } else if label == "Confusion Scroll"@ {
        Some(SpawnKind::ConfusionScroll)
    } else if label == "Magic Missile Scroll"@ {
        Some(SpawnKind::MagicMissileScroll)
    } else if label == "Dagger"@ {
        Some(SpawnKind::Dagger)
    } else if label == "Shield"@ {
        Some(SpawnKind::Shield)
    } else if label == "Longsword"@ {
        Some(SpawnKind::Longsword)
    } else if label == "Tower Shield"@ {
        Some(SpawnKind::TowerShield)
    } else if label == "Rations"@ {
        Some(SpawnKind::Rations)
    } else if label == "Magic Mapping Scroll"@ {
        Some(SpawnKind::MagicMappingScroll)
    } else if label == "Bear Trap"@ {
        Some(SpawnKind::BearTrap)
    } else {
        None
    }
}

/// Every line of the table stands for a thing.
spec fn lines_have_kinds(lines: Seq<TableLine>) -> bool {
    forall|i: int| 0 <= i < lines.len() ==> kind_of_label(#[trigger] lines[i].name) is Some
}

proof fn lemma_line_with_kind(lines: Seq<TableLine>, name: Seq<char>, weight: int, min_depth: int)
    requires
        lines_have_kinds(lines),
        kind_of_label(name) is Some,
    ensures
        lines_have_kinds(with_line(lines, name, weight, min_depth)),
{
    let longer = with_line(lines, name, weight, min_depth);
    assert forall|i: int| 0 <= i < longer.len() implies kind_of_label(
        #[trigger] longer[i].name,
    ) is Some by {
        if i < lines.len() {
            assert(longer[i] == lines[i]);
        }
    }
}

/// Every label that the room table can roll stands for a thing, so that
/// every entry of a spawn plan is made into one.
pub proof fn lemma_room_labels_have_kinds(depth: int, rolled_at: int, label: Seq<char>)
    requires
        label_in_table(label, room_lines(depth), rolled_at),
    ensures
        kind_of_label(label) is Some,
{
    let always = i32::MIN as int;
    let t0 = Seq::<TableLine>::empty();
    let t1 = with_line(t0, "Goblin"@, 10, always);
    let t2 = with_line(t1, "Orc"@, 1 + depth, always);
    let t3 = with_line(t2, "Health Potion"@, 7, always);
    let t4 = with_line(t3, "Fireball Scroll"@, 2 + depth, always);
    let t5 = with_line(t4, "Confusion Scroll"@, 2 + depth, always);
    let t6 = with_line(t5, "Magic Missile Scroll"@, 4, always);
    let t7 = with_line(t6, "Dagger"@, 3, always);
    let t8 = with_line(t7, "Shield"@, 3, always);
    let t9 = with_line(t8, "Longsword"@, depth - 1, always);
    let t10 = with_line(t9, "Tower Shield"@, depth - 1, always);
    let t11 = with_line(t10, "Rations"@, 10, always);
    let t12 = with_line(t11, "Magic Mapping Scroll"@, 2, always);
    assert(lines_have_kinds(t0));
    lemma_line_with_kind(t0, "Goblin"@, 10, always);
    lemma_line_with_kind(t1, "Orc"@, 1 + depth, always);
    lemma_line_with_kind(t2, "Health Potion"@, 7, always);
    lemma_line_with_kind(t3, "Fireball Scroll"@, 2 + depth, always);
    lemma_line_with_kind(t4, "Confusion Scroll"@, 2 + depth, always);
    lemma_line_with_kind(t5, "Magic Missile Scroll"@, 4, always);
    lemma_line_with_kind(t6, "Dagger"@, 3, always);
    lemma_line_with_kind(t7, "Shield"@, 3, always);
    lemma_line_with_kind(t8, "Longsword"@, depth - 1, always);
    lemma_line_with_kind(t9, "Tower Shield"@, depth - 1, always);
    lemma_line_with_kind(t10, "Rations"@, 10, always);
    lemma_line_with_kind(t11, "Magic Mapping Scroll"@, 2, always);
    lemma_line_with_kind(t12, "Bear Trap"@, 2, always);
    let i = choose|i: int|
        0 <= i < room_lines(depth).len() && (#[trigger] room_lines(depth)[i]).effective_weight(
            rolled_at,
        ) > 0 && label == room_lines(depth)[i].name;
    assert(kind_of_label(room_lines(depth)[i].name) is Some);
}

fn label_is(label: &String, name: &str) -> (same: bool)
    ensures
        same == (label@ == name@),
{
    let other: String = name.to_owned();
    *label == other
}

/// What a label of the spawn table stands for. A label that stands for
/// nothing spawns nothing.
pub fn spawn_kind(label: &String) -> (kind: Option<SpawnKind>)
    ensures
        kind == kind_of_label(label@),
{
    if label_is(label, "Goblin") {
        Some(SpawnKind::Goblin)
    } else if label_is(label, "Orc") {
        Some(SpawnKind::Orc)
    } else if label_is(label, "Health Potion") {
        Some(SpawnKind::HealthPotion)
    } else if label_is(label, "Fireball Scroll") {
        Some(SpawnKind::FireballScroll)
    } else if label_is(label, "Confusion Scroll") {
        Some(SpawnKind::ConfusionScroll)
    } else if label_is(label, "Magic Missile Scroll") {
        Some(SpawnKind::MagicMissileScroll)
    } else if label_is(label, "Dagger") {
        Some(SpawnKind::Dagger)
    } else if label_is(label, "Shield") {
        Some(SpawnKind::Shield)
    } else if label_is(label, "Longsword") {
        Some(SpawnKind::Longsword)
    } else if label_is(label, "Tower Shield") {
        Some(SpawnKind::TowerShield)
    } else if label_is(label, "Rations") {
        Some(SpawnKind::Rations)
    } else if label_is(label, "Magic Mapping Scroll") {
        Some(SpawnKind::MagicMappingScroll)
    } else if label_is(label, "Bear Trap") {
        Some(SpawnKind::BearTrap)
    } else {
        None
    }
}

/// (x, y) lies strictly between the corners of the room: such cells are
/// where the things of a room go.
pub open spec fn inside_room(room: Rect, x: int, y: int) -> bool {
    room.x1 < x < room.x2 && room.y1 < y < room.y2
}

/// The tile at `idx` is a floor tile strictly inside the room.
pub open spec fn spawn_spot(m: TileMapView, room: Rect, idx: int) -> bool {
    &&& 0 <= idx < m.tiles.len()
    &&& m.tiles[idx] == TileType::Floor
    &&& inside_room(room, idx % m.width, idx / m.width)
}

/// The floor tiles strictly inside the room: the places for its things.
pub open spec fn spawn_spots(m: TileMapView, room: Rect) -> Set<usize> {
    Set::new(|k: usize| spawn_spot(m, room, k as int))
}

/// A room has no more places for things than the map has tiles.
pub proof fn lemma_spots_are_finite(m: TileMapView, room: Rect)
    ensures
        spawn_spots(m, room).finite(),
        spawn_spots(m, room).len() <= m.tiles.len(),
{
    let all = Seq::new(m.tiles.len(), |i: int| i as usize);
    vstd::seq_lib::seq_to_set_is_finite(all);
    all.lemma_cardinality_of_set();
    assert forall|k: usize| spawn_spots(m, room).contains(k) implies all.to_set().contains(k) by {
        assert(all[k as int] == k);
    }
    vstd::set_lib::lemma_len_subset(spawn_spots(m, room), all.to_set());
}

/// `idx` is one of the entries of the list.
pub open spec fn lists_index(list: Seq<usize>, idx: int) -> bool {
    exists|i: int| 0 <= i < list.len() && #[trigger] list[i] == idx
}

/// In row-major order a cell comes before every cell of a later row, and
/// before the cells to its right in its own row.
proof fn lemma_index_order(w: int, h: int, x1: int, y1: int, x2: int, y2: int)
    requires
        0 <= x1 < w,
        0 <= x2 < w,
        0 <= y1,
        0 <= y2,
        y1 < y2 || (y1 == y2 && x1 < x2),
    ensures
        y1 * w + x1 < y2 * w + x2,
{
    if y1 < y2 {
        assert(y1 * w + w <= y2 * w) by (nonlinear_arith)
            requires
                y1 + 1 <= y2,
                0 < w,
        ;
    }
}

/// The indices of the floor tiles strictly inside the room, in rising
/// order. What of the room lies outside the map holds no tiles.
pub fn room_floor_tiles(map: &TileMap, room: &Rect) -> (tiles: Vec<usize>)
    requires
        map.wf(),
    ensures
        forall|i: int, j: int| 0 <= i < j < tiles@.len() ==> tiles@[i] < tiles@[j],
        forall|i: int| 0 <= i < tiles@.len() ==> spawn_spot(map@, *room, #[trigger] tiles@[i] as int),
        forall|idx: int| #[trigger] spawn_spot(map@, *room, idx) ==> lists_index(tiles@, idx),
{
    let ghost m = map@;
    let mut tiles: Vec<usize> = Vec::new();
    let left: i32 = if room.x1 < 0 {
        0
    } else if room.x1 >= map.width {
        map.width
    } else {
        room.x1 + 1
    };
    let right: i32 = if room.x2 > map.width {
        map.width
    } else {
        room.x2
    };
    let top: i32 = if room.y1 < 0 {
        0
    } else if room.y1 >= map.height {
        map.height
    } else {
        room.y1 + 1
    };
    let bottom: i32 = if room.y2 > map.height {
        map.height
    } else {
        room.y2
    };
    proof {
        assert forall|cx: int, cy: int| m.in_bounds(cx, cy) implies (inside_room(*room, cx, cy)
            <==> left <= cx < right && top <= cy < bottom) by {}
    }
    let mut y: i32 = top;
    while y < bottom
        invariant
            map.wf(),
            m == map@,
            0 <= left <= m.width,
            right <= m.width,
            0 <= top <= m.height,
            bottom <= m.height,
            top <= y,
            y <= bottom || bottom < top,
            forall|cx: int, cy: int|
                m.in_bounds(cx, cy) ==> (inside_room(*room, cx, cy) <==> left <= cx < right && top
                    <= cy < bottom),
            forall|i: int, j: int| 0 <= i < j < tiles@.len() ==> tiles@[i] < tiles@[j],
            forall|i: int|
                0 <= i < tiles@.len() ==> spawn_spot(m, *room, #[trigger] tiles@[i] as int)
                    && tiles@[i] as int / m.width < y,
            forall|cx: int, cy: int|
                m.in_bounds(cx, cy) && inside_room(*room, cx, cy) && cy < y && #[trigger] m.tile_at(
                    cx,
                    cy,
                ) == TileType::Floor ==> lists_index(tiles@, m.index(cx, cy)),
        decreases bottom - y,
    {
        let mut x: i32 = left;
        while x < right
            invariant
                map.wf(),
                m == map@,
                0 <= left <= m.width,
                right <= m.width,
                left <= x,
                x <= right || right < left,
                0 <= top <= y < bottom <= m.height,
                forall|cx: int, cy: int|
                    m.in_bounds(cx, cy) ==> (inside_room(*room, cx, cy) <==> left <= cx < right
                        && top <= cy < bottom),
                forall|i: int, j: int| 0 <= i < j < tiles@.len() ==> tiles@[i] < tiles@[j],
                forall|i: int|
                    0 <= i < tiles@.len() ==> spawn_spot(m, *room, #[trigger] tiles@[i] as int) && (
                    tiles@[i] as int / m.width < y || (tiles@[i] as int / m.width == y
                        && tiles@[i] as int % m.width < x)),
                forall|cx: int, cy: int|
                    m.in_bounds(cx, cy) && inside_room(*room, cx, cy) && (cy < y || (cy == y && cx
                        < x)) && #[trigger] m.tile_at(cx, cy) == TileType::Floor ==> lists_index(
                        tiles@,
                        m.index(cx, cy),
                    ),
            decreases right - x,
        {
            let idx: usize = map.xy_idx(x, y);
            if map.tiles[idx] == TileType::Floor {
                let ghost before = tiles@;
                proof {
                    lemma_index_round_trip(m.width, m.height, x as int, y as int);
                    assert forall|i: int| 0 <= i < before.len() implies before[i] < idx by {
                        let k = before[i] as int;
                        assert(spawn_spot(m, *room, k));
                        lemma_index_to_cell(m.width, m.height, k);
                        lemma_index_order(
                            m.width,
                            m.height,
                            k % m.width,
                            k / m.width,
                            x as int,
                            y as int,
                        );
                    }
                }
                tiles.push(idx);
                proof {
                    assert forall|cx: int, cy: int|
                        m.in_bounds(cx, cy) && inside_room(*room, cx, cy) && (cy < y || (cy == y
                            && cx < x + 1)) && #[trigger] m.tile_at(cx, cy)
                            == TileType::Floor implies lists_index(tiles@, m.index(cx, cy)) by {
                        if cx == x && cy == y {
                            assert(tiles@[before.len() as int] == idx);
                        } else {
                            assert(lists_index(before, m.index(cx, cy)));
                            let i = choose|i: int|
                                0 <= i < before.len() && #[trigger] before[i] == m.index(cx, cy);
                            assert(tiles@[i] == before[i]);
                        }
                    }
                }
            }
            x += 1;
        }
        y += 1;
    }
    proof {
        assert forall|idx: int| #[trigger] spawn_spot(m, *room, idx) implies lists_index(
            tiles@,
            idx,
        ) by {
            lemma_index_to_cell(m.width, m.height, idx);
            assert(m.tile_at(idx % m.width, idx / m.width) == TileType::Floor);
            assert(inside_room(*room, idx % m.width, idx / m.width));
        }
    }
    tiles
}

/// What `spawn_region` may do to a plan: every entry of the old plan is
/// kept, unless its tile is one of the area and was chosen again; every
/// new entry is for a tile of the area and bears a label of the room table.
pub open spec fn plan_extended(
    before: Map<usize, String>,
    after: Map<usize, String>,
    area: Seq<usize>,
    depth: int,
) -> bool {
    &&& forall|k: usize| before.contains_key(k) ==> #[trigger] after.contains_key(k)
    &&& forall|k: usize| #[trigger]
        after.contains_key(k) ==> (before.contains_key(k) && after[k] == before[k]) || (
        area.contains(k) && label_in_table(after[k]@, room_lines(depth), depth))
}

/// Chooses at random which tiles of the area get something, and what:
/// as many tiles as the die and the depth say, each chosen among those
/// not chosen yet, each with a label rolled on the room table. The
/// choices are entered into `plan`, one entry per tile. The die that
/// chooses a tile has as many sides as tiles are left, but no more than a
/// die can have.
pub fn spawn_region(
    plan: &mut HashMap<usize, String>,
    area: &[usize],
    map_depth: i32,
    rng: &mut rltk::RandomNumberGenerator,
)
    requires
        depth_in_range(map_depth as int),
    ensures
        plan_extended(old(plan)@, final(plan)@, area@, map_depth as int),
        final(plan)@.dom().finite(),
        final(plan)@.len() <= old(plan)@.len() + spawn_count_for(
            area@.len() as int,
            MAX_MONSTERS + 3,
            map_depth as int,
        ),
        area@.no_duplicates() && (forall|i: int|
            0 <= i < area@.len() ==> !old(plan)@.contains_key(#[trigger] area@[i]))
            ==> final(plan)@.len() >= old(plan)@.len() + spawn_count_for(
            area@.len() as int,
            1,
            map_depth as int,
        ),
        area@.no_duplicates() ==> final(plan)@.dom().intersect(area@.to_set()).len()
            >= spawn_count_for(area@.len() as int, 1, map_depth as int),
{
    broadcast use vstd::std_specs::hash::group_hash_axioms;

    let ghost distinct = area@.no_duplicates();
    let ghost fresh = distinct && (forall|i: int|
        0 <= i < area@.len() ==> !old(plan)@.contains_key(#[trigger] area@[i]));
    let ghost mut picked: Set<usize> = Set::empty();
    let spawn_table: RandomTable = room_table(map_depth);
    proof {
        lemma_room_table_total(map_depth as int, map_depth as int);
    }
    let mut areas: Vec<usize> = Vec::new();
    let mut k: usize = 0;
    while k < area.len()
        invariant
            k <= area@.len(),
            areas@ == area@.take(k as int),
        decreases area@.len() - k,
    {
        areas.push(area[k]);
        k += 1;
        assert(areas@ =~= area@.take(k as int));
    }
    assert(areas@ =~= area@);
    let roll: i32 = roll_die(rng, MAX_MONSTERS + 3);
    let num_spawns: usize = spawn_count(areas.len(), roll, map_depth);
    let mut i: usize = 0;
    while i < num_spawns
        invariant
            depth_in_range(map_depth as int),
            spawn_table@ == room_lines(map_depth as int),
            0 < total_weight(spawn_table@, map_depth as int) < i32::MAX,
            i <= num_spawns <= area@.len(),
            areas@.len() == area@.len() - i,
            forall|j: int| 0 <= j < areas@.len() ==> area@.contains(#[trigger] areas@[j]),
            plan_extended(old(plan)@, plan@, area@, map_depth as int),
            plan@.dom().finite(),
            plan@.len() <= old(plan)@.len() + i,
            fresh ==> distinct,
            distinct ==> areas@.no_duplicates(),
            fresh ==> forall|j: int| 0 <= j < areas@.len() ==> !plan@.contains_key(
                #[trigger] areas@[j],
            ),
            fresh ==> plan@.len() == old(plan)@.len() + i,
            picked.finite(),
            forall|k: usize| picked.contains(k) ==> plan@.contains_key(k) && area@.contains(k),
            distinct ==> picked.len() == i,
            distinct ==> forall|j: int| 0 <= j < areas@.len() ==> !picked.contains(
                #[trigger] areas@[j],
            ),
        decreases num_spawns - i,
    {
        let array_index: usize = if areas.len() == 1 {
            0
        } else if areas.len() >= i32::MAX as usize {
            (roll_die(rng, i32::MAX - 1) - 1) as usize
        } else {
            (roll_die(rng, areas.len() as i32) - 1) as usize
        };
        let map_idx: usize = areas[array_index];
        let label: String = spawn_table.roll(rng, map_depth);
        let ghost plan_before = plan@;
        let ghost areas_before = areas@;
        plan.insert(map_idx, label);
        areas.remove(array_index);
        proof {
            assert(area@.contains(map_idx));
            assert(label_in_table(label@, room_lines(map_depth as int), map_depth as int));
            assert forall|j: int| 0 <= j < areas@.len() implies area@.contains(
                #[trigger] areas@[j],
            ) by {
                if j < array_index {
                    assert(areas@[j] == areas_before[j]);
                } else {
                    assert(areas@[j] == areas_before[j + 1]);
                }
            }
            if distinct {
                assert forall|a: int, b: int| 0 <= a < areas@.len() && 0 <= b < areas@.len() && a
                    != b implies areas@[a] != areas@[b] by {
                    let a0 = if a < array_index {
                        a
                    } else {
                        a + 1
                    };
                    let b0 = if b < array_index {
                        b
                    } else {
                        b + 1
                    };
                    assert(areas@[a] == areas_before[a0]);
                    assert(areas@[b] == areas_before[b0]);
                }
                assert(!picked.contains(areas_before[array_index as int]));
                assert forall|j: int| 0 <= j < areas@.len() implies !picked.insert(
                    map_idx,
                ).contains(#[trigger] areas@[j]) by {
                    let j0 = if j < array_index {
                        j
                    } else {
                        j + 1
                    };
                    assert(areas@[j] == areas_before[j0]);
                    assert(areas_before[j0] != areas_before[array_index as int]);
                    assert(!picked.contains(areas_before[j0]));
                }
            }
            picked = picked.insert(map_idx);
            if fresh {
                assert forall|j: int| 0 <= j < areas@.len() implies !plan@.contains_key(
                    #[trigger] areas@[j],
                ) by {
                    let j0 = if j < array_index {
                        j
                    } else {
                        j + 1
                    };
                    assert(areas@[j] == areas_before[j0]);
                    assert(areas_before[j0] != areas_before[array_index as int]);
                }
                assert(!plan_before.contains_key(map_idx));
            }
        }
        i += 1;
    }
    proof {
        if distinct {
            let within = plan@.dom().intersect(area@.to_set());
            assert(picked.subset_of(within));
            vstd::set_lib::lemma_len_subset(picked, within);
        }
    }
}

/// A rising list of indices holds no index twice, and as many indices as
/// the set of them has members.
proof fn lemma_rising_is_distinct(list: Seq<usize>)
    requires
        forall|i: int, j: int| 0 <= i < j < list.len() ==> list[i] < list[j],
    ensures
        list.no_duplicates(),
        list.to_set().finite(),
        list.to_set().len() == list.len(),
{
    assert forall|i: int, j: int| 0 <= i < list.len() && 0 <= j < list.len() && i
        != j implies list[i] != list[j] by {
        if i < j {
            assert(list[i] < list[j]);
        } else {
            assert(list[j] < list[i]);
        }
    }
    list.unique_seq_to_set();
    vstd::seq_lib::seq_to_set_is_finite(list);
}

/// Chooses at random which floor tiles strictly inside the room get
/// something, and what, and enters the choices into `plan`.
pub fn spawn_room(
    plan: &mut HashMap<usize, String>,
    map: &TileMap,
    room: &Rect,
    map_depth: i32,
    rng: &mut rltk::RandomNumberGenerator,
)
    requires
        map.wf(),
        depth_in_range(map_depth as int),
    ensures
        forall|k: usize| old(plan)@.contains_key(k) ==> #[trigger] final(plan)@.contains_key(k),
        forall|k: usize| #[trigger]
            final(plan)@.contains_key(k) ==> (old(plan)@.contains_key(k) && final(plan)@[k] == old(
                plan,
            )@[k]) || (spawn_spot(map@, *room, k as int) && label_in_table(
                final(plan)@[k]@,
                room_lines(map_depth as int),
                map_depth as int,
            )),
        final(plan)@.dom().finite(),
        spawn_spots(map@, *room).finite(),
        final(plan)@.len() <= old(plan)@.len() + spawn_count_for(
            spawn_spots(map@, *room).len() as int,
            MAX_MONSTERS + 3,
            map_depth as int,
        ),
        room_has_share(final(plan)@, map@, *room, map_depth as int),
{
    let possible_targets: Vec<usize> = room_floor_tiles(map, room);
    proof {
        lemma_rising_is_distinct(possible_targets@);
        assert forall|k: usize| possible_targets@.to_set().contains(k) == spawn_spots(
            map@,
            *room,
        ).contains(k) by {
            if possible_targets@.contains(k) {
                let i = choose|i: int|
                    0 <= i < possible_targets@.len() && possible_targets@[i] == k;
                assert(spawn_spot(map@, *room, possible_targets@[i] as int));
            }
            if spawn_spot(map@, *room, k as int) {
                assert(lists_index(possible_targets@, k as int));
                let i = choose|i: int|
                    0 <= i < possible_targets@.len() && #[trigger] possible_targets@[i] == k as int;
                assert(possible_targets@[i] == k);
            }
        }
        assert(possible_targets@.to_set() =~= spawn_spots(map@, *room));
    }
    spawn_region(plan, possible_targets.as_slice(), map_depth, rng);
    proof {
        assert forall|k: usize| #[trigger] final(plan)@.contains_key(k) implies (old(
            plan,
        )@.contains_key(k) && final(plan)@[k] == old(plan)@[k]) || (spawn_spot(
            map@,
            *room,
            k as int,
        ) && label_in_table(
            final(plan)@[k]@,
            room_lines(map_depth as int),
            map_depth as int,
        )) by {
            if !(old(plan)@.contains_key(k) && final(plan)@[k] == old(plan)@[k]) {
                assert(possible_targets@.contains(k));
                let i = choose|i: int|
                    0 <= i < possible_targets@.len() && possible_targets@[i] == k;
                assert(spawn_spot(map@, *room, possible_targets@[i] as int));
            }
        }
    }
}

/// The room has its share of a plan: at least as many of its floor tiles
/// bear an entry as the lowest roll of the die gives it at this depth.
pub open spec fn room_has_share(
    plan: Map<usize, String>,
    m: TileMapView,
    room: Rect,
    depth: int,
) -> bool {
    plan.dom().intersect(spawn_spots(m, room)).len() >= spawn_count_for(
        spawn_spots(m, room).len() as int,
        1,
        depth,
    )
}

/// A room keeps its share of a plan when the plan grows.
pub proof fn lemma_share_is_kept(
    before: Map<usize, String>,
    after: Map<usize, String>,
    m: TileMapView,
    room: Rect,
    depth: int,
)
    requires
        room_has_share(before, m, room, depth),
        after.dom().finite(),
        forall|k: usize| before.contains_key(k) ==> #[trigger] after.contains_key(k),
    ensures
        room_has_share(after, m, room, depth),
{
    let spots = spawn_spots(m, room);
    assert(before.dom().intersect(spots).subset_of(after.dom().intersect(spots)));
    vstd::set_lib::lemma_len_subset(before.dom().intersect(spots), after.dom().intersect(spots));
}

/// The tile at `idx` is a place for a thing of one of the rooms but the
/// first, in which the player starts.
pub open spec fn spot_in_later_room(m: TileMapView, rooms: Seq<Rect>, idx: int) -> bool {
    exists|i: int| 1 <= i < rooms.len() && spawn_spot(m, #[trigger] rooms[i], idx)
}

/// Plans what goes where in a level of rooms: every room but the first
/// gets its share, on floor tiles strictly inside it.
pub fn spawn_rooms(
    map: &TileMap,
    rooms: &Vec<Rect>,
    map_depth: i32,
    rng: &mut rltk::RandomNumberGenerator,
) -> (plan: HashMap<usize, String>)
    requires
        map.wf(),
        depth_in_range(map_depth as int),
    ensures
        plan@.dom().finite(),
        forall|k: usize| #[trigger]
            plan@.contains_key(k) ==> spot_in_later_room(map@, rooms@, k as int) && label_in_table(
                plan@[k]@,
                room_lines(map_depth as int),
                map_depth as int,
            ),
        forall|j: int|
            1 <= j < rooms@.len() ==> room_has_share(
                plan@,
                map@,
                #[trigger] rooms@[j],
                map_depth as int,
            ),
{
    let mut plan: HashMap<usize, String> = HashMap::new();
    let mut i: usize = 1;
    while i < rooms.len()
        invariant
            map.wf(),
            depth_in_range(map_depth as int),
            1 <= i,
            plan@.dom().finite(),
            forall|j: int|
                1 <= j < i && j < rooms@.len() ==> room_has_share(
                    plan@,
                    map@,
                    #[trigger] rooms@[j],
                    map_depth as int,
                ),
            forall|k: usize| #[trigger]
                plan@.contains_key(k) ==> spot_in_later_room(map@, rooms@, k as int)
                    && label_in_table(
                    plan@[k]@,
                    room_lines(map_depth as int),
                    map_depth as int,
                ),
        decreases rooms@.len() - i,
    {
        let room: Rect = rooms[i];
        let ghost before = plan@;
        spawn_room(&mut plan, map, &room, map_depth, rng);
        proof {
            assert forall|j: int| 1 <= j < i + 1 && j < rooms@.len() implies room_has_share(
                plan@,
                map@,
                #[trigger] rooms@[j],
                map_depth as int,
            ) by {
                if j < i {
                    lemma_share_is_kept(before, plan@, map@, rooms@[j], map_depth as int);
                }
            }
        }
        i += 1;
    }
    plan
}

} // verus!
