use std::collections::HashSet;
use vstd::prelude::*;

verus! {

pub const MAPWIDTH: usize = 80;

pub const MAPHEIGHT: usize = 40;

pub const MAPCOUNT: usize = MAPHEIGHT * MAPWIDTH;

/// The entity handle of the component store. The map only carries these
/// values in its per-tile lists; it never looks inside one.
#[verifier::external_type_specification]
#[verifier::external_body]
pub struct ExEntity(specs::Entity);

#[derive(PartialEq, Eq, Structural, Copy, Clone, Debug)]
pub enum TileType {
    Wall,
    Floor,
    DownStairs,
}

/// A tile coordinate.
#[derive(PartialEq, Eq, Structural, Copy, Clone, Debug)]
pub struct Position {
    pub x: i32,
    pub y: i32,
}

/// One way out of a tile: the index of the neighbouring tile, and whether the
/// move is diagonal (a diagonal move costs more than a cardinal one).
#[derive(PartialEq, Eq, Structural, Copy, Clone, Debug)]
pub struct Exit {
    pub idx: usize,
    pub diagonal: bool,
}

/// A dungeon level: the tile grid in row-major order and the per-tile
/// arrays that run parallel to it.
pub struct TileMap {
    pub tiles: Vec<TileType>,
    pub width: i32,
    pub height: i32,
    pub revealed_tiles: Vec<bool>,
    pub visible_tiles: Vec<bool>,
    pub blocked: Vec<bool>,
    pub depth: i32,
    pub bloodstains: HashSet<usize>,
    pub tile_content: Vec<Vec<specs::Entity>>,
}

/// The mathematical value of a `TileMap`.
pub struct TileMapView {
    pub tiles: Seq<TileType>,
    pub width: int,
    pub height: int,
    pub revealed_tiles: Seq<bool>,
    pub visible_tiles: Seq<bool>,
    pub blocked: Seq<bool>,
    pub depth: int,
    pub bloodstains: Set<usize>,
    pub tile_content: Seq<Seq<specs::Entity>>,
}

/// Row-major index of the cell (x, y) in a grid `w` cells wide.
pub open spec fn cell_index(w: int, x: int, y: int) -> int {
    y * w + x
}

/// (x, y) lies inside a grid of `w` by `h` cells.
pub open spec fn cell_in_grid(w: int, h: int, x: int, y: int) -> bool {
    0 <= x < w && 0 <= y < h
}

/// The index of a cell inside the grid lies inside the tile array.
pub proof fn lemma_cell_index_bounds(w: int, h: int, x: int, y: int)
    requires
        cell_in_grid(w, h, x, y),
    ensures
        0 <= cell_index(w, x, y) < w * h,
        0 <= y * w <= cell_index(w, x, y),
{
    assert(0 <= y * w && y * w + w <= w * h) by (nonlinear_arith)
        requires
            0 <= y < h,
            0 < w,
    ;
}

/// Two cells of the grid with the same index are the same cell.
pub proof fn lemma_cell_index_injective(w: int, x1: int, y1: int, x2: int, y2: int)
    requires
        0 <= x1 < w,
        0 <= x2 < w,
        cell_index(w, x1, y1) == cell_index(w, x2, y2),
    ensures
        x1 == x2,
        y1 == y2,
{
    assert(y1 == y2) by (nonlinear_arith)
        requires
            0 <= x1 < w,
            0 <= x2 < w,
            y1 * w + x1 == y2 * w + x2,
    ;
}

/// Every index of the tile array is the index of the cell
/// (i % w, i / w) of the grid.
pub proof fn lemma_index_to_cell(w: int, h: int, i: int)
    requires
        0 < w,
        0 <= i < w * h,
    ensures
        cell_in_grid(w, h, i % w, i / w),
        cell_index(w, i % w, i / w) == i,
{
    vstd::arithmetic::div_mod::lemma_fundamental_div_mod(i, w);
    vstd::arithmetic::div_mod::lemma_mod_bound(i, w);
    let q = i / w;
    assert(w * q == q * w) by (nonlinear_arith);
    assert(0 <= q < h) by (nonlinear_arith)
        requires
            0 < w,
            0 <= i < w * h,
            i == q * w + i % w,
            0 <= i % w < w,
    ;
}

/// Taking the index of a cell of the grid and splitting it again into
/// column (`% w`) and row (`/ w`) gives the cell back.
pub proof fn lemma_index_round_trip(w: int, h: int, x: int, y: int)
    requires
        cell_in_grid(w, h, x, y),
    ensures
        cell_index(w, x, y) % w == x,
        cell_index(w, x, y) / w == y,
{
    assert(y * w == w * y) by (nonlinear_arith);
    vstd::arithmetic::div_mod::lemma_fundamental_div_mod_converse(cell_index(w, x, y), w, y, x);
}

/// A level of 80 by 40 tiles that is all wall: nothing revealed, visible
/// or blocked, no entities and no bloodstains.
pub open spec fn blank_level(depth: int) -> TileMapView {
    TileMapView {
        tiles: Seq::new(MAPCOUNT as nat, |i: int| TileType::Wall),
        width: MAPWIDTH as int,
        height: MAPHEIGHT as int,
        revealed_tiles: Seq::new(MAPCOUNT as nat, |i: int| false),
        visible_tiles: Seq::new(MAPCOUNT as nat, |i: int| false),
        blocked: Seq::new(MAPCOUNT as nat, |i: int| false),
        depth,
        bloodstains: Set::<usize>::empty(),
        tile_content: Seq::new(MAPCOUNT as nat, |i: int| Seq::<specs::Entity>::empty()),
    }
}

impl View for TileMap {
    type V = TileMapView;

    open spec fn view(&self) -> TileMapView {
        TileMapView {
            tiles: self.tiles@,
            width: self.width as int,
            height: self.height as int,
            revealed_tiles: self.revealed_tiles@,
            visible_tiles: self.visible_tiles@,
            blocked: self.blocked@,
            depth: self.depth as int,
            bloodstains: self.bloodstains@,
            tile_content: Seq::new(
                self.tile_content@.len(),
                |i: int| self.tile_content@[i]@,
            ),
        }
    }
}

impl TileMapView {
    /// The grid has a positive extent and every parallel array has one
    /// entry per cell.
    pub open spec fn wf(self) -> bool {
        &&& 0 < self.width
        &&& 0 < self.height
        &&& self.tiles.len() == self.width * self.height
        &&& self.revealed_tiles.len() == self.tiles.len()
        &&& self.visible_tiles.len() == self.tiles.len()
        &&& self.blocked.len() == self.tiles.len()
        &&& self.tile_content.len() == self.tiles.len()
    }

    pub open spec fn in_bounds(self, x: int, y: int) -> bool {
        cell_in_grid(self.width, self.height, x, y)
    }

    pub open spec fn index(self, x: int, y: int) -> int {
        cell_index(self.width, x, y)
    }

    pub open spec fn tile_at(self, x: int, y: int) -> TileType {
        self.tiles[self.index(x, y)]
    }

    /// A mover may step onto (x, y): the cell lies inside the grid, at
    /// least one tile away from each of its edges, and is not blocked.
    pub open spec fn exit_valid(self, x: int, y: int) -> bool {
        &&& 1 <= x <= self.width - 2
        &&& 1 <= y <= self.height - 2
        &&& !self.blocked[self.index(x, y)]
    }

    /// The exit onto (x, y), if a mover may step there.
    pub open spec fn exit_to(self, x: int, y: int, diagonal: bool) -> Seq<Exit> {
        if self.exit_valid(x, y) {
            seq![Exit { idx: self.index(x, y) as usize, diagonal }]
        } else {
            Seq::empty()
        }
    }

    /// The exits of the tile at `idx`: the four cardinal neighbours (west,
    /// east, north, south), then the four diagonal ones, each listed only
    /// if a mover may step there.
    pub open spec fn available_exits(self, idx: int) -> Seq<Exit> {
        let x = idx % self.width;
        let y = idx / self.width;
        self.exit_to(x - 1, y, false) + self.exit_to(x + 1, y, false) + self.exit_to(
            x,
            y - 1,
            false,
        ) + self.exit_to(x, y + 1, false) + self.exit_to(x - 1, y - 1, true) + self.exit_to(
            x + 1,
            y - 1,
            true,
        ) + self.exit_to(x - 1, y + 1, true) + self.exit_to(x + 1, y + 1, true)
    }

    /// Square of the straight-line distance between the tiles at two indices.
    pub open spec fn distance2(self, idx1: int, idx2: int) -> int {
        squared_distance(
            idx1 % self.width,
            idx1 / self.width,
            idx2 % self.width,
            idx2 / self.width,
        )
    }

    /// (x, y) lies inside the grid and holds a wall that the player has seen.
    pub open spec fn revealed_wall(self, x: int, y: int) -> bool {
        &&& self.in_bounds(x, y)
        &&& self.tile_at(x, y) == TileType::Wall
        &&& self.revealed_tiles[self.index(x, y)]
    }

    /// Which of the four cardinal neighbours of (x, y) are revealed walls:
    /// 1 for north, 2 for south, 4 for west, 8 for east, added up.
    pub open spec fn wall_mask(self, x: int, y: int) -> int {
        (if self.revealed_wall(x, y - 1) {
            1int
        } else {
            0int
        }) + (if self.revealed_wall(x, y + 1) {
            2int
        } else {
            0int
        }) + (if self.revealed_wall(x - 1, y) {
            4int
        } else {
            0int
        }) + (if self.revealed_wall(x + 1, y) {
            8int
        } else {
            0int
        })
    }

    /// `blocked` holds exactly the walls.
    pub open spec fn blocked_is_walls(self) -> bool {
        &&& self.blocked.len() == self.tiles.len()
        &&& forall|i: int|
            0 <= i < self.tiles.len() ==> (#[trigger] self.blocked[i] == (self.tiles[i]
                == TileType::Wall))
    }
}

/// Copies a set of tile indices with `HashSet::clone`: the copy holds the
/// same indices as the set it was made from.
#[verifier::external_body]
fn clone_index_set(indices: &HashSet<usize>) -> (copy: HashSet<usize>)
    ensures
        copy@ == indices@,
{
    indices.clone()
}

/// Copies one list of entities, element by element.
fn copy_entities(list: &Vec<specs::Entity>) -> (copy: Vec<specs::Entity>)
    ensures
        copy@ == list@,
{
    let mut copy: Vec<specs::Entity> = Vec::new();
    let mut i: usize = 0;
    while i < list.len()
        invariant
            i <= list@.len(),
            copy@ == list@.take(i as int),
        decreases list@.len() - i,
    {
        copy.push(list[i]);
        i += 1;
        assert(copy@ =~= list@.take(i as int));
    }
    assert(list@.take(list@.len() as int) =~= list@);
    copy
}

/// A map without any tiles.
pub open spec fn empty_level() -> TileMapView {
    TileMapView {
        tiles: Seq::empty(),
        width: 0,
        height: 0,
        revealed_tiles: Seq::empty(),
        visible_tiles: Seq::empty(),
        blocked: Seq::empty(),
        depth: 0,
        bloodstains: Set::<usize>::empty(),
        tile_content: Seq::empty(),
    }
}

impl Default for TileMap {
    fn default() -> (map: TileMap)
        ensures
            map@ == empty_level(),
    {
        let map = TileMap {
            tiles: Vec::new(),
            width: 0,
            height: 0,
            revealed_tiles: Vec::new(),
            visible_tiles: Vec::new(),
            blocked: Vec::new(),
            depth: 0,
            bloodstains: HashSet::new(),
            tile_content: Vec::new(),
        };
        assert(map@.tile_content =~= Seq::empty());
        map
    }
}

impl Clone for TileMap {
    fn clone(&self) -> (copy: Self)
        ensures
            copy@ == self@,
    {
        let mut tile_content: Vec<Vec<specs::Entity>> = Vec::new();
        let mut i: usize = 0;
        while i < self.tile_content.len()
            invariant
                i <= self.tile_content@.len(),
                tile_content@.len() == i,
                forall|j: int| 0 <= j < i ==> (#[trigger] tile_content@[j])@ == self.tile_content@[j]@,
            decreases self.tile_content@.len() - i,
        {
            tile_content.push(copy_entities(&self.tile_content[i]));
            i += 1;
        }
        let copy = TileMap {
            tiles: self.tiles.clone(),
            width: self.width,
            height: self.height,
            revealed_tiles: self.revealed_tiles.clone(),
            visible_tiles: self.visible_tiles.clone(),
            blocked: self.blocked.clone(),
            depth: self.depth,
            bloodstains: clone_index_set(&self.bloodstains),
            tile_content,
        };
        assert(copy@.tiles =~= self@.tiles);
        assert(copy@.revealed_tiles =~= self@.revealed_tiles);
        assert(copy@.visible_tiles =~= self@.visible_tiles);
        assert(copy@.blocked =~= self@.blocked);
        assert(copy@.tile_content =~= self@.tile_content);
        copy
    }
}

impl TileMap {
    pub open spec fn wf(&self) -> bool {
        self@.wf()
    }

    /// A level of 80 by 40 tiles at the given depth: every tile a wall,
    /// nothing revealed, visible or blocked, no entities and no bloodstains.
    pub fn new(new_depth: i32) -> (map: TileMap)
        ensures
            map@ == blank_level(new_depth as int),
            map.wf(),
    {
        let mut tile_content: Vec<Vec<specs::Entity>> = Vec::new();
        let mut i: usize = 0;
        while i < MAPCOUNT
            invariant
                i <= MAPCOUNT,
                tile_content@.len() == i,
                forall|j: int| 0 <= j < i ==> (#[trigger] tile_content@[j])@.len() == 0,
            decreases MAPCOUNT - i,
        {
            tile_content.push(Vec::new());
            i += 1;
        }
        let map = TileMap {
            tiles: vec![TileType::Wall; MAPCOUNT],
            width: MAPWIDTH as i32,
            height: MAPHEIGHT as i32,
            revealed_tiles: vec![false; MAPCOUNT],
            visible_tiles: vec![false; MAPCOUNT],
            blocked: vec![false; MAPCOUNT],
            depth: new_depth,
            bloodstains: HashSet::new(),
            tile_content,
        };
        assert(map@.tiles =~= Seq::new(MAPCOUNT as nat, |i: int| TileType::Wall));
        assert(map@.revealed_tiles =~= Seq::new(MAPCOUNT as nat, |i: int| false));
        assert(map@.visible_tiles =~= Seq::new(MAPCOUNT as nat, |i: int| false));
        assert(map@.blocked =~= Seq::new(MAPCOUNT as nat, |i: int| false));
        assert(map@.tile_content =~~= Seq::new(
            MAPCOUNT as nat,
            |i: int| Seq::<specs::Entity>::empty(),
        ));
        map
    }

    /// Row-major index of the tile at (x, y).
    pub fn xy_idx(&self, x: i32, y: i32) -> (idx: usize)
        requires
            self.wf(),
            self@.in_bounds(x as int, y as int),
        ensures
            idx == self@.index(x as int, y as int),
            idx < self.tiles@.len(),
    {
        proof {
            lemma_cell_index_bounds(self.width as int, self.height as int, x as int, y as int);
            assert(self.tiles@.len() == self.tiles.len());
        }
        (y as usize * self.width as usize) + x as usize
    }

    /// Whether a mover may step onto (x, y).
    pub fn is_exit_valid(&self, x: i32, y: i32) -> (valid: bool)
        requires
            self.wf(),
        ensures
            valid == self@.exit_valid(x as int, y as int),
    {
        if x < 1 || x > self.width - 2 || y < 1 || y > self.height - 2 {
            return false;
        }
        let idx = self.xy_idx(x, y);
        !self.blocked[idx]
    }

    /// Width and height of the grid.
    pub fn dimensions(&self) -> (size: Position)
        ensures
            size == (Position { x: self.width, y: self.height }),
    {
        Position { x: self.width, y: self.height }
    }

    /// Whether the tile at `idx` stops the line of sight: walls do.
    pub fn is_opaque(&self, idx: usize) -> (opaque: bool)
        requires
            idx < self.tiles@.len(),
        ensures
            opaque == (self.tiles@[idx as int] == TileType::Wall),
    {
        self.tiles[idx] == TileType::Wall
    }

    /// Column and row of the tile at `idx`.
    pub fn idx_xy(&self, idx: usize) -> (cell: Position)
        requires
            self.wf(),
            idx < self.tiles@.len(),
        ensures
            cell.x == idx as int % self@.width,
            cell.y == idx as int / self@.width,
            self@.in_bounds(cell.x as int, cell.y as int),
            self@.index(cell.x as int, cell.y as int) == idx,
    {
        proof {
            lemma_index_to_cell(self.width as int, self.height as int, idx as int);
        }
        let w: usize = self.width as usize;
        Position { x: (idx % w) as i32, y: (idx / w) as i32 }
    }

    /// Square of the straight-line distance between the tiles at `idx1` and
    /// `idx2`; the pathing distance between the two is its square root.
    pub fn get_pathing_distance_squared(&self, idx1: usize, idx2: usize) -> (d2: u64)
        requires
            self.wf(),
            idx1 < self.tiles@.len(),
            idx2 < self.tiles@.len(),
        ensures
            d2 == self@.distance2(idx1 as int, idx2 as int),
    {
        let here = self.idx_xy(idx1);
        let there = self.idx_xy(idx2);
        let dx: i64 = here.x as i64 - there.x as i64;
        let dy: i64 = here.y as i64 - there.y as i64;
        assert(0 <= dx * dx <= 0x4000_0000_0000_0000) by (nonlinear_arith)
            requires
                -0x8000_0000 <= dx <= 0x8000_0000,
        ;
        assert(0 <= dy * dy <= 0x4000_0000_0000_0000) by (nonlinear_arith)
            requires
                -0x8000_0000 <= dy <= 0x8000_0000,
        ;
        (dx * dx) as u64 + (dy * dy) as u64
    }

    fn push_exit(&self, exits: &mut Vec<Exit>, x: i32, y: i32, diagonal: bool)
        requires
            self.wf(),
        ensures
            final(exits)@ == old(exits)@ + self@.exit_to(x as int, y as int, diagonal),
    {
        if self.is_exit_valid(x, y) {
            let idx = self.xy_idx(x, y);
            exits.push(Exit { idx, diagonal });
            assert(exits@ =~= old(exits)@ + self@.exit_to(x as int, y as int, diagonal));
        } else {
            assert(exits@ =~= old(exits)@ + self@.exit_to(x as int, y as int, diagonal));
        }
    }

    /// The tiles onto which a mover at `idx` may step: up to eight
    /// neighbours, the cardinal ones first.
    pub fn get_available_exits(&self, idx: usize) -> (exits: Vec<Exit>)
        requires
            self.wf(),
            idx < self.tiles@.len(),
        ensures
            exits@ == self@.available_exits(idx as int),
    {
        let cell = self.idx_xy(idx);
        let x: i32 = cell.x;
        let y: i32 = cell.y;
        let mut exits: Vec<Exit> = Vec::new();
        assert(exits@ =~= Seq::<Exit>::empty() + Seq::<Exit>::empty());
        self.push_exit(&mut exits, x - 1, y, false);
        self.push_exit(&mut exits, x + 1, y, false);
        self.push_exit(&mut exits, x, y - 1, false);
        self.push_exit(&mut exits, x, y + 1, false);
        self.push_exit(&mut exits, x - 1, y - 1, true);
        self.push_exit(&mut exits, x + 1, y - 1, true);
        self.push_exit(&mut exits, x - 1, y + 1, true);
        self.push_exit(&mut exits, x + 1, y + 1, true);
        assert(exits@ =~= self@.available_exits(idx as int));
        exits
    }

    /// Recomputes `blocked` from the tiles: a tile is blocked exactly when
    /// it is a wall.
    pub fn populate_blocked(&mut self)
        requires
            old(self).blocked@.len() == old(self).tiles@.len(),
        ensures
            final(self)@.blocked_is_walls(),
            final(self)@ == (TileMapView { blocked: final(self)@.blocked, ..old(self)@ }),
    {
        let n: usize = self.tiles.len();
        let mut i: usize = 0;
        while i < n
            invariant
                n == self.tiles@.len(),
                n == self.blocked@.len(),
                i <= n,
                self@ == (TileMapView { blocked: self@.blocked, ..old(self)@ }),
                forall|j: int|
                    0 <= j < i ==> (#[trigger] self.blocked@[j] == (self.tiles@[j]
                        == TileType::Wall)),
            decreases n - i,
        {
            let wall = self.tiles[i] == TileType::Wall;
            self.blocked.set(i, wall);
            i += 1;
        }
    }

    /// Empties the entity list of every tile.
    pub fn clear_content_index(&mut self)
        ensures
            final(self)@.tile_content == Seq::new(
                old(self)@.tile_content.len(),
                |i: int| Seq::<specs::Entity>::empty(),
            ),
            final(self)@ == (TileMapView { tile_content: final(self)@.tile_content, ..old(self)@ }),
    {
        let n: usize = self.tile_content.len();
        let mut i: usize = 0;
        while i < n
            invariant
                n == self.tile_content@.len(),
                n == old(self).tile_content@.len(),
                i <= n,
                self@ == (TileMapView { tile_content: self@.tile_content, ..old(self)@ }),
                forall|j: int| 0 <= j < i ==> (#[trigger] self.tile_content@[j])@.len() == 0,
            decreases n - i,
        {
            self.tile_content[i].clear();
            i += 1;
        }
        assert(self@.tile_content =~~= Seq::new(
            old(self)@.tile_content.len(),
            |i: int| Seq::<specs::Entity>::empty(),
        ));
    }
}

/// Square of the straight-line distance between two cells.
pub open spec fn squared_distance(x1: int, y1: int, x2: int, y2: int) -> int {
    (x1 - x2) * (x1 - x2) + (y1 - y2) * (y1 - y2)
}

/// The code-page-437 glyph of a wall whose neighbouring walls are given
/// by `mask`: a pillar for none, a line or junction piece otherwise.
pub open spec fn glyph_for_mask(mask: int) -> u16 {
    if mask == 0 {
        9
    } else if mask == 1 {
        208
    } else if mask == 2 {
        210
    } else if mask == 3 {
        186
    } else if mask == 4 {
        181
    } else if mask == 5 {
        188
    } else if mask == 6 {
        187
    } else if mask == 7 {
        185
    } else if mask == 8 {
        198
    } else if mask == 9 {
        200
    } else if mask == 10 {
        201
    } else if mask == 11 {
        204
    } else if mask == 12 {
        205
    } else if mask == 13 {
        202
    } else if mask == 14 {
        203
    } else if mask == 15 {
        206
    } else {
        35
    }
}

fn is_revealed_and_wall(map: &TileMap, x: i32, y: i32) -> (yes: bool)
    requires
        map.wf(),
    ensures
        yes == map@.revealed_wall(x as int, y as int),
{
    if !is_inbounds(map, x, y) {
        return false;
    }
    let idx = map.xy_idx(x, y);
    map.tiles[idx] == TileType::Wall && map.revealed_tiles[idx]
}

/// The glyph with which the wall at (x, y) is drawn, chosen by which of its
/// cardinal neighbours are walls that the player has seen.
pub fn wall_glyph(map: &TileMap, x: i32, y: i32) -> (glyph: u16)
    requires
        map.wf(),
        map@.in_bounds(x as int, y as int),
    ensures
        glyph == glyph_for_mask(map@.wall_mask(x as int, y as int)),
{
    let mut mask: u8 = 0;
    if is_revealed_and_wall(map, x, y - 1) {
        mask += 1;
    }
    if is_revealed_and_wall(map, x, y + 1) {
        mask += 2;
    }
    if is_revealed_and_wall(map, x - 1, y) {
        mask += 4;
    }
    if is_revealed_and_wall(map, x + 1, y) {
        mask += 8;
    }
    match mask {
        0 => 9,
        1 => 208,
        2 => 210,
        3 => 186,
        4 => 181,
        5 => 188,
        6 => 187,
        7 => 185,
        8 => 198,
        9 => 200,
        10 => 201,
        11 => 204,
        12 => 205,
        13 => 202,
        14 => 203,
        15 => 206,
        _ => 35,
    }
}

/// Whether (x, y) lies inside the grid of `map`.
pub fn is_inbounds(map: &TileMap, x: i32, y: i32) -> (inside: bool)
    ensures
        inside == map@.in_bounds(x as int, y as int),
{
    0 <= x && x < map.width && 0 <= y && y < map.height
}

} // verus!
