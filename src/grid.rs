//! The tile grid and the carving of floor and walls into it.

use vstd::prelude::*;

verus! {

/// Width of the tile grid, in cells.
pub const SCREEN_WIDTH: i32 = 80;

/// Height of the tile grid, in cells.
pub const SCREEN_HEIGHT: i32 = 50;

/// Number of cells in the grid (`SCREEN_WIDTH * SCREEN_HEIGHT`).
pub const NUM_TILES: usize = 4000;

/// What a cell of the grid holds.
#[derive(Clone, Copy, Debug, PartialEq, Eq, Structural)]
pub enum TileType {
    Empty,
    Floor,
    Wall,
}

/// A coordinate on (or off) the grid.
#[derive(Clone, Copy, Debug, PartialEq, Eq, Structural)]
pub struct Point {
    pub x: i32,
    pub y: i32,
}

impl Point {
    pub fn new(x: i32, y: i32) -> (p: Point)
        ensures
            p.x == x,
            p.y == y,
    {
        Point { x, y }
    }

    pub fn zero() -> (p: Point)
        ensures
            p.x == 0,
            p.y == 0,
    {
        Point { x: 0, y: 0 }
    }
}

pub open spec fn in_bounds(x: int, y: int) -> bool {
    0 <= x < SCREEN_WIDTH && 0 <= y < SCREEN_HEIGHT
}

/// Row-major position of cell `(x, y)`.
pub open spec fn index_of(x: int, y: int) -> int {
    y * SCREEN_WIDTH + x
}

pub open spec fn tile_at(t: Seq<TileType>, x: int, y: int) -> TileType {
    t[index_of(x, y)]
}

/// Column of the cell stored at position `i`.
pub open spec fn col_of(i: int) -> int {
    i % (SCREEN_WIDTH as int)
}

/// Row of the cell stored at position `i`.
pub open spec fn row_of(i: int) -> int {
    i / (SCREEN_WIDTH as int)
}

pub proof fn lemma_index_of(x: int, y: int)
    requires
        in_bounds(x, y),
    ensures
        0 <= index_of(x, y) < NUM_TILES,
        col_of(index_of(x, y)) == x,
        row_of(index_of(x, y)) == y,
{
    assert(0 <= index_of(x, y) < NUM_TILES) by (nonlinear_arith)
        requires
            0 <= x < 80,
            0 <= y < 50,
    ;
    vstd::arithmetic::div_mod::lemma_fundamental_div_mod_converse(index_of(x, y), 80, y, x);
}

pub proof fn lemma_coords(i: int)
    requires
        0 <= i < NUM_TILES,
    ensures
        in_bounds(col_of(i), row_of(i)),
        index_of(col_of(i), row_of(i)) == i,
{
    vstd::arithmetic::div_mod::lemma_fundamental_div_mod(i, 80);
}

/// The tile left at `(x, y)`, which held `o`, once every cell of `region`
/// has been carved: a carved cell is floor; an empty cell beside a carved one
/// becomes wall (beside on the left or right when `h`, above or below when
/// `v`); any other cell keeps `o`. A floor cell is never turned into wall.
pub open spec fn painted(
    o: TileType,
    region: spec_fn(int, int) -> bool,
    h: bool,
    v: bool,
    x: int,
    y: int,
) -> TileType {
    if region(x, y) {
        TileType::Floor
    } else if o == TileType::Empty && ((h && (region(x - 1, y) || region(x + 1, y))) || (v && (
    region(x, y - 1) || region(x, y + 1)))) {
        TileType::Wall
    } else {
        o
    }
}

/// The grid `t` once `region` has been carved (see `painted`).
pub open spec fn paint_all(t: Seq<TileType>, region: spec_fn(int, int) -> bool, h: bool, v: bool) -> Seq<
    TileType,
> {
    Seq::new(t.len(), |i: int| painted(t[i], region, h, v, col_of(i), row_of(i)))
}

pub open spec fn single(x: int, y: int) -> spec_fn(int, int) -> bool {
    |a: int, b: int| a == x && b == y
}

/// Carving a region, then one more cell, is carving the region with that cell added.
pub proof fn lemma_paint_extend(
    t: Seq<TileType>,
    region: spec_fn(int, int) -> bool,
    bigger: spec_fn(int, int) -> bool,
    x: int,
    y: int,
    h: bool,
    v: bool,
)
    requires
        forall|a: int, b: int| #[trigger] bigger(a, b) == (region(a, b) || (a == x && b == y)),
    ensures
        paint_all(paint_all(t, region, h, v), single(x, y), h, v) == paint_all(t, bigger, h, v),
{
    assert(paint_all(paint_all(t, region, h, v), single(x, y), h, v) =~= paint_all(t, bigger, h, v));
}

/// Carving a region that holds no cell changes nothing.
pub proof fn lemma_paint_nothing(t: Seq<TileType>, region: spec_fn(int, int) -> bool, h: bool, v: bool)
    requires
        forall|a: int, b: int| !#[trigger] region(a, b),
    ensures
        paint_all(t, region, h, v) == t,
{
    assert(paint_all(t, region, h, v) =~= t);
}

/// Two descriptions of the same region carve alike.
pub proof fn lemma_paint_same_region(
    t: Seq<TileType>,
    r1: spec_fn(int, int) -> bool,
    r2: spec_fn(int, int) -> bool,
    h: bool,
    v: bool,
)
    requires
        forall|a: int, b: int| #[trigger] r1(a, b) == r2(a, b),
    ensures
        paint_all(t, r1, h, v) == paint_all(t, r2, h, v),
{
    assert(paint_all(t, r1, h, v) =~= paint_all(t, r2, h, v));
}

/// Carving never changes a floor cell: the wall policy only turns empty
/// cells into wall, so a cell that is floor stays floor.
pub proof fn lemma_floor_stays(t: Seq<TileType>, region: spec_fn(int, int) -> bool, h: bool, v: bool, i: int)
    requires
        0 <= i < t.len(),
        t[i] == TileType::Floor,
    ensures
        paint_all(t, region, h, v)[i] == TileType::Floor,
{
}

/// A grid of tiles, fixed in size and stored row by row.
pub struct Grid {
    pub tiles: Vec<TileType>,
}

/// Position of the in-range cell `(x, y)`.
pub fn map_index(x: i32, y: i32) -> (r: usize)
    requires
        in_bounds(x as int, y as int),
    ensures
        r as int == index_of(x as int, y as int),
        r < NUM_TILES,
{
    proof {
        lemma_index_of(x as int, y as int);
    }
    (y * SCREEN_WIDTH + x) as usize
}

impl Grid {
    pub open spec fn wf(&self) -> bool {
        self.tiles@.len() == NUM_TILES
    }

    /// A grid whose every cell is floor.
    pub fn new() -> (m: Grid)
        ensures
            m.wf(),
            m.tiles@ == Seq::new(NUM_TILES as nat, |i: int| TileType::Floor),
    {
        let mut tiles: Vec<TileType> = Vec::new();
        let mut i: usize = 0;
        while i < NUM_TILES
            invariant
                i <= NUM_TILES,
                tiles@ == Seq::new(i as nat, |j: int| TileType::Floor),
            decreases NUM_TILES - i,
        {
            tiles.push(TileType::Floor);
            i = i + 1;
        }
        Grid { tiles }
    }

    /// Position of `p` when it lies on the grid, `None` otherwise.
    pub fn try_index(&self, p: Point) -> (r: Option<usize>)
        ensures
            in_bounds(p.x as int, p.y as int) ==> r == Some(index_of(p.x as int, p.y as int) as usize),
            !in_bounds(p.x as int, p.y as int) ==> r.is_none(),
    {
        if 0 <= p.x && p.x < SCREEN_WIDTH && 0 <= p.y && p.y < SCREEN_HEIGHT {
            Some(map_index(p.x, p.y))
        } else {
            None
        }
    }

    /// Sets every cell to `tile`.
    pub fn fill(&mut self, tile: TileType)
        ensures
            final(self).tiles@ == Seq::new(old(self).tiles@.len(), |i: int| tile),
    {
        let n = self.tiles.len();
        let mut i: usize = 0;
        while i < n
            invariant
                i <= n,
                n == old(self).tiles@.len(),
                self.tiles@.len() == n,
                forall|j: int| 0 <= j < i ==> self.tiles@[j] == tile,
            decreases n - i,
        {
            self.tiles.set(i, tile);
            i = i + 1;
        }
        assert(self.tiles@ =~= Seq::new(n as nat, |i: int| tile));
    }
    /// Makes the cell at `p` a wall if it lies on the grid and is empty.
    fn wall_if_empty(&mut self, p: Point)
        requires
            old(self).wf(),
        ensures
            final(self).wf(),
            final(self).tiles@ == if in_bounds(p.x as int, p.y as int) && tile_at(
                old(self).tiles@,
                p.x as int,
                p.y as int,
            ) == TileType::Empty {
                old(self).tiles@.update(index_of(p.x as int, p.y as int), TileType::Wall)
            } else {
                old(self).tiles@
            },
    {
        if let Some(i) = self.try_index(p) {
            if self.tiles[i] == TileType::Empty {
                self.tiles.set(i, TileType::Wall);
            }
        }
    }

    /// Carves the cell `(x, y)` to floor and walls off its empty neighbours:
    /// left and right when `h`, above and below when `v`.
    pub fn carve_cell(&mut self, x: i32, y: i32, h: bool, v: bool)
        requires
            old(self).wf(),
            in_bounds(x as int, y as int),
        ensures
            final(self).wf(),
            final(self).tiles@ == paint_all(old(self).tiles@, single(x as int, y as int), h, v),
    {
        let ghost t0 = self.tiles@;
        let i = map_index(x, y);
        self.tiles.set(i, TileType::Floor);
        if h {
            self.wall_if_empty(Point::new(x - 1, y));
            self.wall_if_empty(Point::new(x + 1, y));
        }
        if v {
            self.wall_if_empty(Point::new(x, y - 1));
            self.wall_if_empty(Point::new(x, y + 1));
        }
        proof {
            let goal = paint_all(t0, single(x as int, y as int), h, v);
            assert forall|j: int| 0 <= j < NUM_TILES implies self.tiles@[j] == goal[j] by {
                lemma_coords(j);
                lemma_index_of(x as int, y as int);
                if in_bounds(x - 1, y as int) {
                    lemma_index_of(x - 1, y as int);
                }
                if in_bounds(x + 1, y as int) {
                    lemma_index_of(x + 1, y as int);
                }
                if in_bounds(x as int, y - 1) {
                    lemma_index_of(x as int, y - 1);
                }
                if in_bounds(x as int, y + 1) {
                    lemma_index_of(x as int, y + 1);
                }
            }
            assert(self.tiles@ =~= goal);
        }
    }
}

} // verus!
