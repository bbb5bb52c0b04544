//! Level generation: rejection-sampled rooms, then corridors between them.

use vstd::prelude::*;

use crate::grid::{
    in_bounds, lemma_paint_extend, lemma_paint_same_region, paint_all, Grid, Point, TileType,
    NUM_TILES, SCREEN_HEIGHT, SCREEN_WIDTH,
};
use crate::rect::Rect;
use crate::rng::{draw_in, RandomNumberGenerator};

verus! {

/// Number of rooms a level gets unless asked otherwise.
pub const NUM_ROOMS: usize = 20;

/// Smallest width or height a room is drawn with.
pub const ROOM_MIN_SIZE: i32 = 2;

/// Rooms are drawn narrower and lower than this.
pub const ROOM_MAX_SIZE: i32 = 10;

/// Why a level could not be generated.
#[derive(Clone, Copy, Debug, PartialEq, Eq, Structural)]
pub enum GenError {
    /// The random source ran out of draws before the level was complete.
    OutOfDraws,
}

/// The cells that placing room `r` carves to floor: those of `r` that lie
/// strictly inside the grid's outer border.
pub open spec fn room_cells(r: Rect) -> spec_fn(int, int) -> bool {
    |x: int, y: int| r.contains(x, y) && 0 < x < SCREEN_WIDTH && 0 < y < SCREEN_HEIGHT
}

/// The grid `t` once room `r` is carved: its cells become floor and their
/// empty neighbours on all four sides become wall.
pub open spec fn carve_room_spec(t: Seq<TileType>, r: Rect) -> Seq<TileType> {
    paint_all(t, room_cells(r), true, true)
}

pub open spec fn min_int(a: int, b: int) -> int {
    if a <= b { a } else { b }
}

pub open spec fn max_int(a: int, b: int) -> int {
    if a <= b { b } else { a }
}

/// The grid cells of the horizontal run from `x1` to `x2` (both included) on row `y`.
pub open spec fn h_cells(x1: int, x2: int, y: int) -> spec_fn(int, int) -> bool {
    |a: int, b: int| min_int(x1, x2) <= a <= max_int(x1, x2) && b == y && in_bounds(a, b)
}

/// The grid cells of the vertical run from `y1` to `y2` (both included) on column `x`.
pub open spec fn v_cells(y1: int, y2: int, x: int) -> spec_fn(int, int) -> bool {
    |a: int, b: int| min_int(y1, y2) <= b <= max_int(y1, y2) && a == x && in_bounds(a, b)
}

/// The grid `t` once a horizontal tunnel is dug: the run becomes floor and
/// empty cells right above and below it become wall.
pub open spec fn h_tunnel(t: Seq<TileType>, x1: int, x2: int, y: int) -> Seq<TileType> {
    paint_all(t, h_cells(x1, x2, y), false, true)
}

/// The grid `t` once a vertical tunnel is dug: the run becomes floor and
/// empty cells right beside it become wall.
pub open spec fn v_tunnel(t: Seq<TileType>, y1: int, y2: int, x: int) -> Seq<TileType> {
    paint_all(t, v_cells(y1, y2, x), true, false)
}

/// The grid `t` once the L-shaped corridor from `a` to `b` is dug: along
/// row `a.y` then column `b.x` when `horizontal_first`, else along column
/// `a.x` then row `b.y`.
pub open spec fn l_corridor(t: Seq<TileType>, a: Point, b: Point, horizontal_first: bool) -> Seq<
    TileType,
> {
    if horizontal_first {
        v_tunnel(h_tunnel(t, a.x as int, b.x as int, a.y as int), a.y as int, b.y as int, b.x as int)
    } else {
        h_tunnel(v_tunnel(t, a.y as int, b.y as int, a.x as int), a.x as int, b.x as int, b.y as int)
    }
}

/// The room that the first four draws of `d` describe: its corner from the
/// first two, its width and height from the next two.
pub open spec fn candidate(d: Seq<u32>) -> Rect {
    let x = draw_in(d[0], 2, SCREEN_WIDTH - 12);
    let y = draw_in(d[1], 2, SCREEN_HEIGHT - 12);
    let w = draw_in(d[2], ROOM_MIN_SIZE as int, ROOM_MAX_SIZE as int);
    let h = draw_in(d[3], ROOM_MIN_SIZE as int, ROOM_MAX_SIZE as int);
    Rect { x1: x as i32, y1: y as i32, x2: (x + w) as i32, y2: (y + h) as i32 }
}

/// True when `c` intersects one of `rooms`.
pub open spec fn hits_any(rooms: Seq<Rect>, c: Rect) -> bool {
    exists|j: int| 0 <= j < rooms.len() && #[trigger] rooms[j].intersects_spec(&c)
}

/// Rejection sampling: draws candidates from `d` and keeps, carving it into
/// `t`, each one that meets none of the rooms kept so far, until there are
/// `n` rooms. Gives the grid, the rooms and the draws left, or `None` when
/// the draws run out first.
pub open spec fn place_rooms(t: Seq<TileType>, rooms: Seq<Rect>, d: Seq<u32>, n: nat) -> Option<
    (Seq<TileType>, Seq<Rect>, Seq<u32>),
>
    decreases d.len(),
{
    if rooms.len() >= n {
        Some((t, rooms, d))
    } else if d.len() < 4 {
        None
    } else {
        let c = candidate(d);
        let rest = d.subrange(4, d.len() as int);
        if hits_any(rooms, c) {
            place_rooms(t, rooms, rest, n)
        } else {
            place_rooms(carve_room_spec(t, c), rooms.push(c), rest, n)
        }
    }
}

/// Where a room whose center has column `k` goes in `s`, looking from
/// position `j` on: before the first room whose center lies further right.
pub open spec fn insert_pos(s: Seq<Rect>, k: int, j: int) -> int
    decreases s.len() - j,
{
    if j >= s.len() {
        s.len() as int
    } else if s[j].center_spec().x > k {
        j
    } else {
        insert_pos(s, k, j + 1)
    }
}

/// The first `i` rooms of `s`, stably sorted by the column of their center.
pub open spec fn sort_prefix(s: Seq<Rect>, i: nat) -> Seq<Rect>
    decreases i,
{
    if i == 0 {
        Seq::empty()
    } else {
        let p = sort_prefix(s, (i - 1) as nat);
        p.insert(insert_pos(p, s[i - 1].center_spec().x as int, 0), s[i - 1])
    }
}

/// `s` stably sorted by the column of each room's center.
pub open spec fn sorted_by_center_x(s: Seq<Rect>) -> Seq<Rect> {
    sort_prefix(s, s.len())
}

/// Digs a corridor from the center of `sorted[i - 1]` to that of
/// `sorted[i]`, and so on to the last room, each with its orientation drawn
/// from `d`. Gives the grid and the draws left, or `None` when the draws run out.
pub open spec fn corridors(t: Seq<TileType>, sorted: Seq<Rect>, d: Seq<u32>, i: nat) -> Option<
    (Seq<TileType>, Seq<u32>),
>
    decreases sorted.len() - i,
{
    if i >= sorted.len() {
        Some((t, d))
    } else if d.len() == 0 {
        None
    } else {
        let a = sorted[i - 1].center_spec();
        let b = sorted[i as int].center_spec();
        corridors(l_corridor(t, a, b, draw_in(d[0], 0, 2) == 1), sorted, d.drop_first(), i + 1)
    }
}

pub open spec fn empty_grid() -> Seq<TileType> {
    Seq::new(NUM_TILES as nat, |i: int| TileType::Empty)
}

/// A whole level made from the draws `d` with `n` rooms: its grid, its rooms
/// in the order they were placed, the player's start and the draws left; or
/// `None` when the draws run out.
pub open spec fn level_of(d: Seq<u32>, n: nat) -> Option<
    (Seq<TileType>, Seq<Rect>, Point, Seq<u32>),
> {
    match place_rooms(empty_grid(), Seq::empty(), d, n) {
        None => None,
        Some((t, rooms, d1)) => match corridors(t, sorted_by_center_x(rooms), d1, 1) {
            None => None,
            Some((t2, d2)) => Some((t2, rooms, rooms[0].center_spec(), d2)),
        },
    }
}

/// A generated dungeon level.
pub struct MapBuilder {
    pub map: Grid,
    pub rooms: Vec<Rect>,
    pub player_start: Point,
}

/// Cells of room `r` carved once rows before `y`, and the cells of row `y`
/// left of `x`, have been visited.
pub open spec fn room_upto(r: Rect, y: int, x: int) -> spec_fn(int, int) -> bool {
    |a: int, b: int| room_cells(r)(a, b) && (b < y || (b == y && a < x))
}

/// Cells of the horizontal run on row `y` from `lo` up to, not including, `x`.
pub open spec fn h_upto(lo: int, x: int, y: int) -> spec_fn(int, int) -> bool {
    |a: int, b: int| lo <= a < x && b == y && in_bounds(a, b)
}

/// Cells of the vertical run on column `x` from `lo` up to, not including, `y`.
pub open spec fn v_upto(lo: int, y: int, x: int) -> spec_fn(int, int) -> bool {
    |a: int, b: int| lo <= b < y && a == x && in_bounds(a, b)
}

impl MapBuilder {
    fn fill(&mut self, tile: TileType)
        ensures
            final(self).map.tiles@ == Seq::new(old(self).map.tiles@.len(), |i: int| tile),
            final(self).rooms == old(self).rooms,
            final(self).player_start == old(self).player_start,
    {
        self.map.fill(tile);
    }

    /// Carves room `r`: every cell of it strictly inside the grid's border
    /// becomes floor, and each empty neighbour of such a cell becomes wall.
    fn carve_room(&mut self, r: Rect)
        requires
            old(self).map.wf(),
        ensures
            final(self).map.wf(),
            final(self).map.tiles@ == carve_room_spec(old(self).map.tiles@, r),
            final(self).rooms == old(self).rooms,
            final(self).player_start == old(self).player_start,
    {
        let ghost t0 = self.map.tiles@;
        let mut y: i64 = r.y1 as i64;
        proof {
            lemma_paint_same_region(t0, room_upto(r, y as int, r.x1 as int), |a: int, b: int| false, true, true);
            crate::grid::lemma_paint_nothing(t0, |a: int, b: int| false, true, true);
        }
        while y < r.y2 as i64
            invariant
                self.map.wf(),
                r.y1 <= y,
                y <= r.y2 || y == r.y1,
                self.map.tiles@ == paint_all(t0, room_upto(r, y as int, r.x1 as int), true, true),
                self.rooms == old(self).rooms,
                self.player_start == old(self).player_start,
            decreases r.y2 - y,
        {
            let mut x: i64 = r.x1 as i64;
            while x < r.x2 as i64
                invariant
                    self.map.wf(),
                    r.y1 <= y < r.y2,
                    r.x1 <= x,
                    x <= r.x2 || x == r.x1,
                    self.map.tiles@ == paint_all(t0, room_upto(r, y as int, x as int), true, true),
                    self.rooms == old(self).rooms,
                    self.player_start == old(self).player_start,
                decreases r.x2 - x,
            {
                if 0 < x && x < SCREEN_WIDTH as i64 && 0 < y && y < SCREEN_HEIGHT as i64 {
                    self.map.carve_cell(x as i32, y as i32, true, true);
                    proof {
                        lemma_paint_extend(
                            t0,
                            room_upto(r, y as int, x as int),
                            room_upto(r, y as int, x + 1),
                            x as int,
                            y as int,
                            true,
                            true,
                        );
                    }
                } else {
                    proof {
                        lemma_paint_same_region(
                            t0,
                            room_upto(r, y as int, x as int),
                            room_upto(r, y as int, x + 1),
                            true,
                            true,
                        );
                    }
                }
                x = x + 1;
            }
            proof {
                lemma_paint_same_region(
                    t0,
                    room_upto(r, y as int, x as int),
                    room_upto(r, y + 1, r.x1 as int),
                    true,
                    true,
                );
            }
            y = y + 1;
        }
        proof {
            lemma_paint_same_region(t0, room_upto(r, y as int, r.x1 as int), room_cells(r), true, true);
        }
    }
    fn create_horizontal_tunnel(&mut self, x1: i32, x2: i32, y: i32)
        requires
            old(self).map.wf(),
        ensures
            final(self).map.wf(),
            final(self).map.tiles@ == h_tunnel(old(self).map.tiles@, x1 as int, x2 as int, y as int),
            final(self).rooms == old(self).rooms,
            final(self).player_start == old(self).player_start,
    {
        let ghost t0 = self.map.tiles@;
        let lo: i64 = if x1 <= x2 { x1 as i64 } else { x2 as i64 };
        let hi: i64 = if x1 <= x2 { x2 as i64 } else { x1 as i64 };
        let mut x: i64 = lo;
        proof {
            crate::grid::lemma_paint_nothing(t0, h_upto(lo as int, x as int, y as int), false, true);
        }
        while x <= hi
            invariant
                self.map.wf(),
                lo <= x <= hi + 1,
                hi <= i32::MAX,
                self.map.tiles@ == paint_all(t0, h_upto(lo as int, x as int, y as int), false, true),
                self.rooms == old(self).rooms,
                self.player_start == old(self).player_start,
            decreases hi + 1 - x,
        {
            if 0 <= x && x < SCREEN_WIDTH as i64 && 0 <= y && y < SCREEN_HEIGHT {
                self.map.carve_cell(x as i32, y, false, true);
                proof {
                    lemma_paint_extend(
                        t0,
                        h_upto(lo as int, x as int, y as int),
                        h_upto(lo as int, x + 1, y as int),
                        x as int,
                        y as int,
                        false,
                        true,
                    );
                }
            } else {
                proof {
                    lemma_paint_same_region(
                        t0,
                        h_upto(lo as int, x as int, y as int),
                        h_upto(lo as int, x + 1, y as int),
                        false,
                        true,
                    );
                }
            }
            x = x + 1;
        }
        proof {
            lemma_paint_same_region(
                t0,
                h_upto(lo as int, x as int, y as int),
                h_cells(x1 as int, x2 as int, y as int),
                false,
                true,
            );
        }
    }

    fn create_vertical_tunnel(&mut self, y1: i32, y2: i32, x: i32)
        requires
            old(self).map.wf(),
        ensures
            final(self).map.wf(),
            final(self).map.tiles@ == v_tunnel(old(self).map.tiles@, y1 as int, y2 as int, x as int),
            final(self).rooms == old(self).rooms,
            final(self).player_start == old(self).player_start,
    {
        let ghost t0 = self.map.tiles@;
        let lo: i64 = if y1 <= y2 { y1 as i64 } else { y2 as i64 };
        let hi: i64 = if y1 <= y2 { y2 as i64 } else { y1 as i64 };
        let mut y: i64 = lo;
        proof {
            crate::grid::lemma_paint_nothing(t0, v_upto(lo as int, y as int, x as int), true, false);
        }
        while y <= hi
            invariant
                self.map.wf(),
                lo <= y <= hi + 1,
                hi <= i32::MAX,
                self.map.tiles@ == paint_all(t0, v_upto(lo as int, y as int, x as int), true, false),
                self.rooms == old(self).rooms,
                self.player_start == old(self).player_start,
            decreases hi + 1 - y,
        {
            if 0 <= x && x < SCREEN_WIDTH && 0 <= y && y < SCREEN_HEIGHT as i64 {
                self.map.carve_cell(x, y as i32, true, false);
                proof {
                    lemma_paint_extend(
                        t0,
                        v_upto(lo as int, y as int, x as int),
                        v_upto(lo as int, y + 1, x as int),
                        x as int,
                        y as int,
                        true,
                        false,
                    );
                }
            } else {
                proof {
                    lemma_paint_same_region(
                        t0,
                        v_upto(lo as int, y as int, x as int),
                        v_upto(lo as int, y + 1, x as int),
                        true,
                        false,
                    );
                }
            }
            y = y + 1;
        }
        proof {
            lemma_paint_same_region(
                t0,
                v_upto(lo as int, y as int, x as int),
                v_cells(y1 as int, y2 as int, x as int),
                true,
                false,
            );
        }
    }
}

/// A copy of `rooms`, stably sorted by the column of each room's center.
pub fn sort_by_center_x(rooms: &Vec<Rect>) -> (r: Vec<Rect>)
    ensures
        r@ == sorted_by_center_x(rooms@),
{
    let mut out: Vec<Rect> = Vec::new();
    let mut i: usize = 0;
    while i < rooms.len()
        invariant
            i <= rooms@.len(),
            out@ == sort_prefix(rooms@, i as nat),
        decreases rooms@.len() - i,
    {
        let room = rooms[i];
        let k = room.center().x;
        let mut j: usize = 0;
        while j < out.len()
            invariant
                j <= out@.len(),
                insert_pos(out@, k as int, 0) == insert_pos(out@, k as int, j as int),
            ensures
                j <= out@.len(),
                insert_pos(out@, k as int, 0) == j,
            decreases out@.len() - j,
        {
            if out[j].center().x > k {
                break;
            }
            j = j + 1;
        }
        assert(sort_prefix(rooms@, (i + 1) as nat) == out@.insert(
            insert_pos(out@, rooms@[i as int].center_spec().x as int, 0),
            rooms@[i as int],
        ));
        out.insert(j, room);
        i = i + 1;
    }
    out
}

impl MapBuilder {
    /// Places rooms by rejection sampling until there are `n` of them.
    fn build_random_rooms(&mut self, rng: &mut RandomNumberGenerator, n: usize) -> (r: Result<
        (),
        GenError,
    >)
        requires
            old(self).map.wf(),
        ensures
            final(self).map.wf(),
            final(self).player_start == old(self).player_start,
            match place_rooms(old(self).map.tiles@, old(self).rooms@, old(rng)@, n as nat) {
                Some((t, rooms, d)) => r is Ok && final(self).map.tiles@ == t && final(self).rooms@
                    == rooms && final(rng)@ == d,
                None => r is Err,
            },
    {
        let ghost goal = place_rooms(self.map.tiles@, self.rooms@, rng@, n as nat);
        while self.rooms.len() < n
            invariant
                self.map.wf(),
                self.player_start == old(self).player_start,
                place_rooms(self.map.tiles@, self.rooms@, rng@, n as nat) == goal,
                goal == place_rooms(old(self).map.tiles@, old(self).rooms@, old(rng)@, n as nat),
            decreases rng@.len(),
        {
            if rng.remaining() < 4 {
                return Err(GenError::OutOfDraws);
            }
            let ghost d = rng@;
            let x = rng.range(2, SCREEN_WIDTH - 12);
            let y = rng.range(2, SCREEN_HEIGHT - 12);
            let w = rng.range(ROOM_MIN_SIZE, ROOM_MAX_SIZE);
            let h = rng.range(ROOM_MIN_SIZE, ROOM_MAX_SIZE);
            let room = Rect::with_size(x, y, w, h);
            proof {
                assert(room == candidate(d));
                assert(rng@ =~= d.subrange(4, d.len() as int));
            }
            // the candidate is dropped if it meets a room already placed
            let mut overlap = false;
            let mut j: usize = 0;
            while j < self.rooms.len()
                invariant
                    j <= self.rooms@.len(),
                    overlap == exists|k: int| 0 <= k < j && #[trigger] self.rooms@[k].intersects_spec(&room),
                decreases self.rooms@.len() - j,
            {
                if self.rooms[j].intersect(&room) {
                    overlap = true;
                }
                j = j + 1;
            }
            if !overlap {
                self.carve_room(room);
                self.rooms.push(room);
            }
        }
        Ok(())
    }

    /// Joins each room to the next one in order of their centers' columns.
    fn build_corridors(&mut self, rng: &mut RandomNumberGenerator) -> (r: Result<(), GenError>)
        requires
            old(self).map.wf(),
        ensures
            final(self).map.wf(),
            final(self).rooms == old(self).rooms,
            final(self).player_start == old(self).player_start,
            match corridors(old(self).map.tiles@, sorted_by_center_x(old(self).rooms@), old(rng)@, 1) {
                Some((t, d)) => r is Ok && final(self).map.tiles@ == t && final(rng)@ == d,
                None => r is Err,
            },
    {
        let rooms = sort_by_center_x(&self.rooms);
        let ghost goal = corridors(self.map.tiles@, rooms@, rng@, 1);
        let mut i: usize = 1;
        while i < rooms.len()
            invariant
                1 <= i,
                self.map.wf(),
                self.rooms == old(self).rooms,
                self.player_start == old(self).player_start,
                corridors(self.map.tiles@, rooms@, rng@, i as nat) == goal,
                rooms@ == sorted_by_center_x(old(self).rooms@),
                goal == corridors(old(self).map.tiles@, rooms@, old(rng)@, 1),
            decreases rooms@.len() - i,
        {
            if rng.remaining() < 1 {
                return Err(GenError::OutOfDraws);
            }
            let prev = rooms[i - 1].center();
            let new = rooms[i].center();
            if rng.range(0, 2) == 1 {
                self.create_horizontal_tunnel(prev.x, new.x, prev.y);
                self.create_vertical_tunnel(prev.y, new.y, new.x);
            } else {
                self.create_vertical_tunnel(prev.y, new.y, prev.x);
                self.create_horizontal_tunnel(prev.x, new.x, new.y);
            }
            i = i + 1;
        }
        Ok(())
    }
}

/// True when the room lies on the grid and holds at least one cell.
pub open spec fn room_on_grid(r: Rect) -> bool {
    0 <= r.x1 < r.x2 <= SCREEN_WIDTH && 0 <= r.y1 < r.y2 <= SCREEN_HEIGHT
}

/// No two of the rooms intersect, and each lies on the grid.
pub open spec fn rooms_valid(rooms: Seq<Rect>) -> bool {
    &&& forall|i: int, j: int|
        0 <= i < rooms.len() && 0 <= j < rooms.len() && i != j ==> !#[trigger] rooms[i].intersects_spec(
            &rooms[j],
        )
    &&& forall|i: int| 0 <= i < rooms.len() ==> #[trigger] room_on_grid(rooms[i])
}

/// Rejection sampling, when it completes, leaves exactly `n` valid rooms,
/// the ones it started from first.
pub proof fn lemma_place_rooms(t: Seq<TileType>, rooms: Seq<Rect>, d: Seq<u32>, n: nat)
    requires
        rooms.len() <= n,
        rooms_valid(rooms),
        t.len() == NUM_TILES,
    ensures
        place_rooms(t, rooms, d, n) matches Some((t2, r2, d2)) ==> {
            &&& r2.len() == n
            &&& rooms_valid(r2)
            &&& t2.len() == NUM_TILES
            &&& forall|i: int| 0 <= i < rooms.len() ==> r2[i] == rooms[i]
        },
    decreases d.len(),
{
    if rooms.len() >= n {
    } else if d.len() < 4 {
    } else {
        let c = candidate(d);
        let rest = d.subrange(4, d.len() as int);
        if hits_any(rooms, c) {
            lemma_place_rooms(t, rooms, rest, n);
        } else {
            let r1 = rooms.push(c);
            assert(room_on_grid(c));
            assert forall|i: int, j: int|
                0 <= i < r1.len() && 0 <= j < r1.len() && i != j implies !#[trigger] r1[i].intersects_spec(
                &r1[j],
            ) by {
                if j == rooms.len() {
                    assert(!rooms[i].intersects_spec(&c));
                } else if i == rooms.len() {
                    assert(!rooms[j].intersects_spec(&c));
                }
            }
            lemma_place_rooms(carve_room_spec(t, c), r1, rest, n);
        }
    }
}

impl MapBuilder {
    /// Generates a level with `room_count` rooms from the draws of `rng`:
    /// rooms by rejection sampling, then corridors between rooms taken in
    /// order of their centers' columns; the player starts at the center of
    /// the first room placed. Fails when `rng` runs out of draws.
    pub fn generate(rng: &mut RandomNumberGenerator, room_count: usize) -> (r: Result<
        MapBuilder,
        GenError,
    >)
        requires
            room_count >= 1,
        ensures
            match level_of(old(rng)@, room_count as nat) {
                Some((t, rooms, start, d)) => r is Ok && r->Ok_0.map.tiles@ == t && r->Ok_0.rooms@
                    == rooms && r->Ok_0.player_start == start && final(rng)@ == d,
                None => r is Err,
            },
            r is Ok ==> {
                let mb = r->Ok_0;
                &&& mb.map.wf()
                &&& mb.rooms@.len() == room_count
                &&& rooms_valid(mb.rooms@)
                &&& mb.player_start == mb.rooms@[0].center_spec()
            },
    {
        let mut mb = MapBuilder { map: Grid::new(), rooms: Vec::new(), player_start: Point::zero() };
        mb.fill(TileType::Empty);
        proof {
            assert(mb.map.tiles@ =~= empty_grid());
            assert(mb.rooms@ =~= Seq::<Rect>::empty());
            lemma_place_rooms(empty_grid(), Seq::empty(), rng@, room_count as nat);
        }
        match mb.build_random_rooms(rng, room_count) {
            Err(e) => {
                return Err(e);
            },
            Ok(()) => {},
        }
        match mb.build_corridors(rng) {
            Err(e) => {
                return Err(e);
            },
            Ok(()) => {},
        }
        mb.player_start = mb.rooms[0].center();
        Ok(mb)
    }

    /// Generates a level with the default number of rooms (see `generate`).
    pub fn new(rng: &mut RandomNumberGenerator) -> (r: Result<MapBuilder, GenError>)
        ensures
            match level_of(old(rng)@, NUM_ROOMS as nat) {
                Some((t, rooms, start, d)) => r is Ok && r->Ok_0.map.tiles@ == t && r->Ok_0.rooms@
                    == rooms && r->Ok_0.player_start == start && final(rng)@ == d,
                None => r is Err,
            },
            r is Ok ==> {
                let mb = r->Ok_0;
                &&& mb.map.wf()
                &&& mb.rooms@.len() == NUM_ROOMS
                &&& rooms_valid(mb.rooms@)
                &&& mb.player_start == mb.rooms@[0].center_spec()
            },
    {
        MapBuilder::generate(rng, NUM_ROOMS)
    }
}

/// Generation depends on the draws alone: two random sources that hold the
/// same draws give the same grid, the same rooms, the same player start and
/// leave the same draws.
pub proof fn lemma_deterministic(a: RandomNumberGenerator, b: RandomNumberGenerator, n: nat)
    requires
        a@ == b@,
    ensures
        level_of(a@, n) == level_of(b@, n),
{
}

/// Where the search for a room's place in `s` ends, looking from `j` on.
pub proof fn lemma_insert_pos_bounds(s: Seq<Rect>, k: int, j: int)
    requires
        0 <= j <= s.len(),
    ensures
        j <= insert_pos(s, k, j) <= s.len(),
    decreases s.len() - j,
{
    if j < s.len() && s[j].center_spec().x <= k {
        lemma_insert_pos_bounds(s, k, j + 1);
    }
}

/// Sorting the first `i` rooms keeps exactly those rooms.
pub proof fn lemma_sort_prefix_members(s: Seq<Rect>, i: nat)
    requires
        i <= s.len(),
    ensures
        sort_prefix(s, i).len() == i,
        forall|m: int| 0 <= m < i ==> exists|k: int| 0 <= k < i && #[trigger] sort_prefix(s, i)[m] == s[k],
        forall|k: int| 0 <= k < i ==> exists|m: int| 0 <= m < i && sort_prefix(s, i)[m] == #[trigger] s[k],
    decreases i,
{
    if i > 0 {
        let p = sort_prefix(s, (i - 1) as nat);
        lemma_sort_prefix_members(s, (i - 1) as nat);
        let pos = insert_pos(p, s[i - 1].center_spec().x as int, 0);
        lemma_insert_pos_bounds(p, s[i - 1].center_spec().x as int, 0);
        p.insert_ensures(pos, s[i - 1]);
        let q = sort_prefix(s, i);
        assert(q == p.insert(pos, s[i - 1]));
        assert forall|m: int| 0 <= m < i implies exists|k: int| 0 <= k < i && #[trigger] q[m] == s[k] by {
            if m < pos {
                assert(q[m] == p[m]);
            } else if m == pos {
                assert(q[m] == s[i - 1]);
            } else {
                assert(q[m] == p[m - 1]);
            }
        }
        assert forall|k: int| 0 <= k < i implies exists|m: int| 0 <= m < i && q[m] == #[trigger] s[k] by {
            if k == i - 1 {
                assert(q[pos] == s[k]);
            } else {
                let m0 = choose|m: int| 0 <= m < i - 1 && p[m] == s[k];
                if m0 < pos {
                    assert(q[m0] == s[k]);
                } else {
                    assert(q[m0 + 1] == s[k]);
                }
            }
        }
    }
}

} // verus!
