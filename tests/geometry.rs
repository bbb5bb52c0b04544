use dungeon_map::grid::{map_index, Grid, Point, TileType, NUM_TILES, SCREEN_HEIGHT, SCREEN_WIDTH};
use dungeon_map::rect::Rect;
use dungeon_map::rng::RandomNumberGenerator;

#[test]
fn map_index_is_row_major() {
    assert_eq!(map_index(0, 0), 0);
    assert_eq!(map_index(3, 2), 163);
    assert_eq!(map_index(SCREEN_WIDTH - 1, SCREEN_HEIGHT - 1), NUM_TILES - 1);
}

#[test]
fn try_index_rejects_off_grid_points() {
    let g = Grid::new();
    assert_eq!(g.try_index(Point::new(5, 7)), Some(565));
    assert_eq!(g.try_index(Point::new(-1, 0)), None);
    assert_eq!(g.try_index(Point::new(0, -1)), None);
    assert_eq!(g.try_index(Point::new(SCREEN_WIDTH, 0)), None);
    assert_eq!(g.try_index(Point::new(0, SCREEN_HEIGHT)), None);
}

#[test]
fn fill_overwrites_every_cell() {
    let mut g = Grid::new();
    assert_eq!(g.tiles.len(), NUM_TILES);
    assert!(g.tiles.iter().all(|t| *t == TileType::Floor));
    g.fill(TileType::Wall);
    assert_eq!(g.tiles.len(), NUM_TILES);
    assert!(g.tiles.iter().all(|t| *t == TileType::Wall));
}

#[test]
fn carve_cell_walls_only_empty_neighbours() {
    let mut g = Grid::new();
    g.fill(TileType::Empty);
    let left = map_index(9, 10);
    g.tiles[left] = TileType::Floor;
    g.carve_cell(10, 10, true, true);
    assert_eq!(g.tiles[map_index(10, 10)], TileType::Floor);
    assert_eq!(g.tiles[left], TileType::Floor);
    assert_eq!(g.tiles[map_index(11, 10)], TileType::Wall);
    assert_eq!(g.tiles[map_index(10, 9)], TileType::Wall);
    assert_eq!(g.tiles[map_index(10, 11)], TileType::Wall);
    assert_eq!(g.tiles[map_index(11, 11)], TileType::Empty);
}

#[test]
fn carve_cell_at_the_edge_skips_off_grid_neighbours() {
    let mut g = Grid::new();
    g.fill(TileType::Empty);
    g.carve_cell(0, 0, true, false);
    assert_eq!(g.tiles[0], TileType::Floor);
    assert_eq!(g.tiles[1], TileType::Wall);
    assert_eq!(g.tiles[map_index(0, 1)], TileType::Empty);
}

#[test]
fn rect_with_size_and_center() {
    let r = Rect::with_size(5, 5, 4, 4);
    assert_eq!(r, Rect { x1: 5, y1: 5, x2: 9, y2: 9 });
    assert_eq!(r.center(), Point::new(7, 7));
    let odd = Rect::with_size(2, 3, 3, 5);
    assert_eq!(odd.center(), Point::new(3, 5));
    let neg = Rect { x1: -3, y1: -1, x2: 0, y2: 0 };
    assert_eq!(neg.center(), Point::new(-2, -1));
}

#[test]
fn rect_intersection() {
    let a = Rect::with_size(0, 0, 4, 4);
    assert!(a.intersect(&Rect::with_size(3, 3, 4, 4)));
    assert!(a.intersect(&Rect::with_size(1, 1, 1, 1)));
    assert!(!a.intersect(&Rect::with_size(10, 0, 2, 2)));
    // sharing only an edge is no overlap
    assert!(!a.intersect(&Rect::with_size(4, 0, 4, 4)));
    assert!(!a.intersect(&Rect::with_size(0, 4, 4, 4)));
}

#[test]
fn range_reduces_each_draw_into_its_range() {
    let mut rng = RandomNumberGenerator::from_draws(vec![3, 70, 9, 1]);
    assert_eq!(rng.remaining(), 4);
    assert_eq!(rng.range(2, 68), 5);
    assert_eq!(rng.range(2, 68), 6);
    assert_eq!(rng.range(-5, 5), 4);
    assert_eq!(rng.range(0, 2), 1);
    assert_eq!(rng.remaining(), 0);
}
