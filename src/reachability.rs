//! Walks over floor cells, and why every room of a level can be reached.

use vstd::prelude::*;

use crate::grid::{
    in_bounds, index_of, lemma_floor_stays, lemma_index_of, paint_all, tile_at, Point, TileType,
    NUM_TILES,
};
use crate::map_builder::{
    corridors, empty_grid, h_tunnel, l_corridor, lemma_place_rooms, lemma_sort_prefix_members,
    level_of, place_rooms, room_on_grid, rooms_valid, sorted_by_center_x, v_tunnel,
};
use crate::rect::Rect;

verus! {

/// True when `p` lies on the grid and its cell is floor.
pub open spec fn floor_at(t: Seq<TileType>, p: Point) -> bool {
    in_bounds(p.x as int, p.y as int) && tile_at(t, p.x as int, p.y as int) == TileType::Floor
}

/// True when `b` is `a` or one of its four neighbours.
pub open spec fn step(a: Point, b: Point) -> bool {
    (a.x == b.x && -1 <= a.y - b.y <= 1) || (a.y == b.y && -1 <= a.x - b.x <= 1)
}

/// A walk over floor cells, one step at a time.
pub open spec fn floor_path(t: Seq<TileType>, p: Seq<Point>) -> bool {
    &&& p.len() > 0
    &&& forall|i: int| 0 <= i < p.len() ==> floor_at(t, #[trigger] p[i])
    &&& forall|i: int| 0 <= i < p.len() - 1 ==> step(#[trigger] p[i], p[i + 1])
}

/// True when a walk over floor cells leads from `a` to `b`.
pub open spec fn connected(t: Seq<TileType>, a: Point, b: Point) -> bool {
    exists|p: Seq<Point>| #[trigger] floor_path(t, p) && p[0] == a && p.last() == b
}

/// True when every floor cell of `t` is still floor in `t2`.
pub open spec fn floor_kept(t: Seq<TileType>, t2: Seq<TileType>) -> bool {
    &&& t.len() == NUM_TILES
    &&& t2.len() == NUM_TILES
    &&& forall|i: int| 0 <= i < NUM_TILES && t[i] == TileType::Floor ==> #[trigger] t2[i]
        == TileType::Floor
}

pub proof fn lemma_connected_ends(t: Seq<TileType>, a: Point, b: Point)
    requires
        connected(t, a, b),
    ensures
        floor_at(t, a),
        floor_at(t, b),
{
    let p = choose|p: Seq<Point>| #[trigger] floor_path(t, p) && p[0] == a && p.last() == b;
    assert(floor_at(t, p[0]));
    assert(floor_at(t, p[p.len() - 1]));
}

pub proof fn lemma_connected_refl(t: Seq<TileType>, a: Point)
    requires
        floor_at(t, a),
    ensures
        connected(t, a, a),
{
    let p = seq![a];
    assert(floor_path(t, p));
}

pub proof fn lemma_connected_sym(t: Seq<TileType>, a: Point, b: Point)
    requires
        connected(t, a, b),
    ensures
        connected(t, b, a),
{
    let p = choose|p: Seq<Point>| #[trigger] floor_path(t, p) && p[0] == a && p.last() == b;
    let n = p.len();
    let q = Seq::new(n, |i: int| p[n - 1 - i]);
    assert forall|i: int| 0 <= i < q.len() implies floor_at(t, #[trigger] q[i]) by {
        assert(floor_at(t, p[n - 1 - i]));
    }
    assert forall|i: int| 0 <= i < q.len() - 1 implies step(#[trigger] q[i], q[i + 1]) by {
        assert(step(p[n - 2 - i], p[n - 2 - i + 1]));
    }
    assert(floor_path(t, q));
}

pub proof fn lemma_connected_trans(t: Seq<TileType>, a: Point, b: Point, c: Point)
    requires
        connected(t, a, b),
        connected(t, b, c),
    ensures
        connected(t, a, c),
{
    let p = choose|p: Seq<Point>| #[trigger] floor_path(t, p) && p[0] == a && p.last() == b;
    let q = choose|q: Seq<Point>| #[trigger] floor_path(t, q) && q[0] == b && q.last() == c;
    let r = p + q;
    assert forall|i: int| 0 <= i < r.len() implies floor_at(t, #[trigger] r[i]) by {
        if i < p.len() {
            assert(floor_at(t, p[i]));
        } else {
            assert(floor_at(t, q[i - p.len()]));
        }
    }
    assert forall|i: int| 0 <= i < r.len() - 1 implies step(#[trigger] r[i], r[i + 1]) by {
        if i < p.len() - 1 {
            assert(step(p[i], p[i + 1]));
        } else if i == p.len() - 1 {
            assert(r[i] == b && r[i + 1] == b);
        } else {
            assert(step(q[i - p.len()], q[i - p.len() + 1]));
        }
    }
    assert(floor_path(t, r));
}

/// A walk over floor stays a walk when no floor cell is lost.
pub proof fn lemma_connected_grows(t: Seq<TileType>, t2: Seq<TileType>, a: Point, b: Point)
    requires
        connected(t, a, b),
        floor_kept(t, t2),
    ensures
        connected(t2, a, b),
{
    let p = choose|p: Seq<Point>| #[trigger] floor_path(t, p) && p[0] == a && p.last() == b;
    assert forall|i: int| 0 <= i < p.len() implies floor_at(t2, #[trigger] p[i]) by {
        assert(floor_at(t, p[i]));
        lemma_index_of(p[i].x as int, p[i].y as int);
        assert(t2[index_of(p[i].x as int, p[i].y as int)] == TileType::Floor);
    }
    assert(floor_path(t2, p));
}

/// Carving keeps every floor cell.
pub proof fn lemma_paint_keeps_floor(t: Seq<TileType>, region: spec_fn(int, int) -> bool, h: bool, v: bool)
    requires
        t.len() == NUM_TILES,
    ensures
        floor_kept(t, paint_all(t, region, h, v)),
{
    assert forall|i: int| 0 <= i < NUM_TILES && t[i] == TileType::Floor implies #[trigger] paint_all(
        t,
        region,
        h,
        v,
    )[i] == TileType::Floor by {
        lemma_floor_stays(t, region, h, v, i);
    }
}

/// A horizontal tunnel between two cells of one row on the grid joins them.
pub proof fn lemma_h_run(t: Seq<TileType>, a: Point, b: Point)
    requires
        t.len() == NUM_TILES,
        a.y == b.y,
        in_bounds(a.x as int, a.y as int),
        in_bounds(b.x as int, b.y as int),
    ensures
        connected(h_tunnel(t, a.x as int, b.x as int, a.y as int), a, b),
{
    let t2 = h_tunnel(t, a.x as int, b.x as int, a.y as int);
    let n: int = if a.x <= b.x { b.x - a.x + 1 } else { a.x - b.x + 1 };
    let p = Seq::new(n as nat, |k: int| Point { x: (if a.x <= b.x { a.x + k } else { a.x - k }) as i32, y: a.y });
    assert forall|k: int| 0 <= k < p.len() implies floor_at(t2, #[trigger] p[k]) by {
        lemma_index_of(p[k].x as int, p[k].y as int);
    }
    assert(floor_path(t2, p));
    assert(p[0] == a);
    assert(p.last() == b);
}

/// A vertical tunnel between two cells of one column on the grid joins them.
pub proof fn lemma_v_run(t: Seq<TileType>, a: Point, b: Point)
    requires
        t.len() == NUM_TILES,
        a.x == b.x,
        in_bounds(a.x as int, a.y as int),
        in_bounds(b.x as int, b.y as int),
    ensures
        connected(v_tunnel(t, a.y as int, b.y as int, a.x as int), a, b),
{
    let t2 = v_tunnel(t, a.y as int, b.y as int, a.x as int);
    let n: int = if a.y <= b.y { b.y - a.y + 1 } else { a.y - b.y + 1 };
    let p = Seq::new(n as nat, |k: int| Point { x: a.x, y: (if a.y <= b.y { a.y + k } else { a.y - k }) as i32 });
    assert forall|k: int| 0 <= k < p.len() implies floor_at(t2, #[trigger] p[k]) by {
        lemma_index_of(p[k].x as int, p[k].y as int);
    }
    assert(floor_path(t2, p));
    assert(p[0] == a);
    assert(p.last() == b);
}

/// An L-shaped corridor between two cells on the grid joins them and keeps
/// every floor cell.
pub proof fn lemma_l_corridor(t: Seq<TileType>, a: Point, b: Point, horizontal_first: bool)
    requires
        t.len() == NUM_TILES,
        in_bounds(a.x as int, a.y as int),
        in_bounds(b.x as int, b.y as int),
    ensures
        floor_kept(t, l_corridor(t, a, b, horizontal_first)),
        connected(l_corridor(t, a, b, horizontal_first), a, b),
{
    if horizontal_first {
        let c = Point { x: b.x, y: a.y };
        let t1 = h_tunnel(t, a.x as int, b.x as int, a.y as int);
        let t2 = v_tunnel(t1, a.y as int, b.y as int, b.x as int);
        lemma_paint_keeps_floor(t, crate::map_builder::h_cells(a.x as int, b.x as int, a.y as int), false, true);
        lemma_paint_keeps_floor(t1, crate::map_builder::v_cells(a.y as int, b.y as int, b.x as int), true, false);
        lemma_h_run(t, a, c);
        lemma_v_run(t1, c, b);
        lemma_connected_grows(t1, t2, a, c);
        lemma_connected_trans(t2, a, c, b);
    } else {
        let c = Point { x: a.x, y: b.y };
        let t1 = v_tunnel(t, a.y as int, b.y as int, a.x as int);
        let t2 = h_tunnel(t1, a.x as int, b.x as int, b.y as int);
        lemma_paint_keeps_floor(t, crate::map_builder::v_cells(a.y as int, b.y as int, a.x as int), true, false);
        lemma_paint_keeps_floor(t1, crate::map_builder::h_cells(a.x as int, b.x as int, b.y as int), false, true);
        lemma_v_run(t, a, c);
        lemma_h_run(t1, c, b);
        lemma_connected_grows(t1, t2, a, c);
        lemma_connected_trans(t2, a, c, b);
    }
}

/// The center of a room on the grid is a cell of the room, on the grid.
pub proof fn lemma_center_on_grid(r: Rect)
    requires
        room_on_grid(r),
    ensures
        r.contains(r.center_spec().x as int, r.center_spec().y as int),
        in_bounds(r.center_spec().x as int, r.center_spec().y as int),
{
}

/// Digging the corridors from room `i` on leaves the center of every room
/// of `s` reachable from the center of the first, given that this held
/// already for the rooms before `i`.
pub proof fn lemma_corridors_connect(t: Seq<TileType>, s: Seq<Rect>, d: Seq<u32>, i: nat)
    requires
        t.len() == NUM_TILES,
        1 <= i,
        forall|k: int| 0 <= k < s.len() ==> #[trigger] room_on_grid(s[k]),
        i >= 2 ==> forall|k: int|
            0 <= k < i && k < s.len() ==> connected(t, s[0].center_spec(), #[trigger] s[k].center_spec()),
    ensures
        corridors(t, s, d, i) matches Some((t2, d2)) ==> (s.len() >= 2 ==> forall|k: int|
            0 <= k < s.len() ==> connected(t2, s[0].center_spec(), #[trigger] s[k].center_spec())),
    decreases s.len() - i,
{
    if i >= s.len() {
    } else if d.len() == 0 {
    } else {
        let a = s[i - 1].center_spec();
        let b = s[i as int].center_spec();
        let c0 = s[0].center_spec();
        let hf = crate::rng::draw_in(d[0], 0, 2) == 1;
        let t2 = l_corridor(t, a, b, hf);
        assert(room_on_grid(s[i - 1]));
        assert(room_on_grid(s[i as int]));
        lemma_center_on_grid(s[i - 1]);
        lemma_center_on_grid(s[i as int]);
        lemma_l_corridor(t, a, b, hf);
        assert forall|k: int| 0 <= k < i + 1 && k < s.len() implies connected(
            t2,
            c0,
            #[trigger] s[k].center_spec(),
        ) by {
            if k < i {
                if i >= 2 {
                    lemma_connected_grows(t, t2, c0, s[k].center_spec());
                } else {
                    lemma_connected_ends(t2, a, b);
                    lemma_connected_refl(t2, a);
                }
            } else if i >= 2 {
                lemma_connected_grows(t, t2, c0, a);
                lemma_connected_trans(t2, c0, a, b);
            }
        }
        lemma_corridors_connect(t2, s, d.drop_first(), i + 1);
    }
}

/// In every level that generation completes, the center of each room can be
/// reached from the center of each other room by steps between side-by-side
/// floor cells.
pub proof fn lemma_rooms_connected(d: Seq<u32>, n: nat, i: int, j: int)
    requires
        level_of(d, n) is Some,
        0 <= i < n,
        0 <= j < n,
        i != j,
    ensures
        ({
            let (t, rooms, start, rest) = level_of(d, n)->Some_0;
            connected(t, rooms[i].center_spec(), rooms[j].center_spec())
        }),
{
    lemma_place_rooms(empty_grid(), Seq::empty(), d, n);
    let (t, rooms, d1) = place_rooms(empty_grid(), Seq::empty(), d, n)->Some_0;
    let s = sorted_by_center_x(rooms);
    lemma_sort_prefix_members(rooms, rooms.len());
    assert forall|k: int| 0 <= k < s.len() implies #[trigger] room_on_grid(s[k]) by {
        let m = choose|m: int| 0 <= m < rooms.len() && s[k] == rooms[m];
        assert(room_on_grid(rooms[m]));
    }
    lemma_corridors_connect(t, s, d1, 1);
    let t2 = corridors(t, s, d1, 1)->Some_0.0;
    let a = choose|a: int| 0 <= a < rooms.len() && s[a] == rooms[i];
    let b = choose|b: int| 0 <= b < rooms.len() && s[b] == rooms[j];
    let c0 = s[0].center_spec();
    assert(connected(t2, c0, s[a].center_spec()));
    assert(connected(t2, c0, s[b].center_spec()));
    lemma_connected_sym(t2, c0, s[a].center_spec());
    lemma_connected_trans(t2, s[a].center_spec(), c0, s[b].center_spec());
}

} // verus!
