use std::collections::VecDeque;

use dungeon_map::grid::{map_index, Point, TileType, NUM_TILES, SCREEN_HEIGHT, SCREEN_WIDTH};
use dungeon_map::map_builder::{sort_by_center_x, GenError, MapBuilder, NUM_ROOMS};
use dungeon_map::rect::Rect;
use dungeon_map::rng::RandomNumberGenerator;

fn pseudo_random_draws(seed: u64, n: usize) -> Vec<u32> {
    let mut s = seed;
    let mut out = Vec::new();
    for _ in 0..n {
        s = s.wrapping_mul(6364136223846793005).wrapping_add(1442695040888963407);
        out.push((s >> 33) as u32);
    }
    out
}

fn tile(mb: &MapBuilder, x: i32, y: i32) -> TileType {
    mb.map.tiles[map_index(x, y)]
}

fn count(mb: &MapBuilder, kind: TileType) -> usize {
    mb.map.tiles.iter().filter(|t| **t == kind).count()
}

fn reachable_from(mb: &MapBuilder, start: Point) -> Vec<bool> {
    let mut seen = vec![false; NUM_TILES];
    let mut queue = VecDeque::new();
    if tile(mb, start.x, start.y) == TileType::Floor {
        seen[map_index(start.x, start.y)] = true;
        queue.push_back(start);
    }
    while let Some(p) = queue.pop_front() {
        for (dx, dy) in [(-1, 0), (1, 0), (0, -1), (0, 1)] {
            let q = Point::new(p.x + dx, p.y + dy);
            if let Some(i) = mb.map.try_index(q) {
                if !seen[i] && mb.map.tiles[i] == TileType::Floor {
                    seen[i] = true;
                    queue.push_back(q);
                }
            }
        }
    }
    seen
}

#[test]
fn single_room_scenario() {
    let mut rng = RandomNumberGenerator::from_draws(vec![3, 3, 2, 2]);
    let mb = MapBuilder::generate(&mut rng, 1).unwrap();
    assert_eq!(mb.rooms, vec![Rect { x1: 5, y1: 5, x2: 9, y2: 9 }]);
    assert_eq!(mb.player_start, Point::new(7, 7));
    assert_eq!(rng.remaining(), 0);
    // only the room itself is floor: no corridor was dug
    assert_eq!(count(&mb, TileType::Floor), 16);
    for y in 5..9 {
        for x in 5..9 {
            assert_eq!(tile(&mb, x, y), TileType::Floor);
        }
    }
    // a wall on each side of the room, none at its corners
    assert_eq!(count(&mb, TileType::Wall), 16);
    assert_eq!(tile(&mb, 4, 5), TileType::Wall);
    assert_eq!(tile(&mb, 9, 8), TileType::Wall);
    assert_eq!(tile(&mb, 6, 4), TileType::Wall);
    assert_eq!(tile(&mb, 6, 9), TileType::Wall);
    assert_eq!(tile(&mb, 4, 4), TileType::Empty);
}

#[test]
fn horizontal_first_corridor_scenario() {
    // rooms centred on (10, 10) and (30, 10), then a draw for "horizontal first"
    let mut rng = RandomNumberGenerator::from_draws(vec![6, 6, 2, 2, 26, 6, 2, 2, 1]);
    let mb = MapBuilder::generate(&mut rng, 2).unwrap();
    assert_eq!(mb.rooms[0].center(), Point::new(10, 10));
    assert_eq!(mb.rooms[1].center(), Point::new(30, 10));
    assert_eq!(rng.remaining(), 0);
    for x in 10..=30 {
        assert_eq!(tile(&mb, x, 10), TileType::Floor);
    }
    // between the rooms the run is bordered by walls
    for x in 12..28 {
        assert_eq!(tile(&mb, x, 9), TileType::Wall);
        assert_eq!(tile(&mb, x, 11), TileType::Wall);
    }
    // inside the rooms the cells beside the run stay floor
    for x in [10, 11, 28, 29, 30] {
        assert_eq!(tile(&mb, x, 9), TileType::Floor);
        assert_eq!(tile(&mb, x, 11), TileType::Floor);
    }
    // the rooms' walls where the corridor leaves them became floor
    assert_eq!(tile(&mb, 12, 10), TileType::Floor);
    assert_eq!(tile(&mb, 27, 10), TileType::Floor);
    assert_eq!(tile(&mb, 12, 9), TileType::Wall);
}

#[test]
fn vertical_first_corridor_goes_down_then_across() {
    // rooms centred on (10, 10) and (30, 20), then a draw for "vertical first"
    let mut rng = RandomNumberGenerator::from_draws(vec![6, 6, 2, 2, 26, 16, 2, 2, 0]);
    let mb = MapBuilder::generate(&mut rng, 2).unwrap();
    assert_eq!(mb.rooms[1].center(), Point::new(30, 20));
    for y in 10..=20 {
        assert_eq!(tile(&mb, 10, y), TileType::Floor);
    }
    for x in 10..=30 {
        assert_eq!(tile(&mb, x, 20), TileType::Floor);
    }
    assert_eq!(tile(&mb, 9, 15), TileType::Wall);
    assert_eq!(tile(&mb, 11, 15), TileType::Wall);
    assert_eq!(tile(&mb, 20, 19), TileType::Wall);
    assert_eq!(tile(&mb, 20, 10), TileType::Empty);
}

#[test]
fn overlapping_candidate_is_rejected() {
    // the second candidate overlaps the first and is dropped; the third is kept
    let draws = vec![3, 3, 2, 2, 4, 4, 2, 2, 30, 3, 2, 2, 0];
    let mut rng = RandomNumberGenerator::from_draws(draws);
    let mb = MapBuilder::generate(&mut rng, 2).unwrap();
    assert_eq!(
        mb.rooms,
        vec![Rect { x1: 5, y1: 5, x2: 9, y2: 9 }, Rect { x1: 32, y1: 5, x2: 36, y2: 9 }]
    );
}

#[test]
fn touching_rooms_are_both_kept() {
    let draws = vec![3, 3, 2, 2, 7, 3, 2, 2, 1];
    let mut rng = RandomNumberGenerator::from_draws(draws);
    let mb = MapBuilder::generate(&mut rng, 2).unwrap();
    assert_eq!(mb.rooms[1], Rect { x1: 9, y1: 5, x2: 13, y2: 9 });
}

#[test]
fn running_out_of_draws_is_an_error() {
    let mut rng = RandomNumberGenerator::from_draws(vec![]);
    assert_eq!(MapBuilder::new(&mut rng).err(), Some(GenError::OutOfDraws));
    let mut rng = RandomNumberGenerator::from_draws(vec![3, 3, 2]);
    assert_eq!(MapBuilder::generate(&mut rng, 1).err(), Some(GenError::OutOfDraws));
    // rooms placed, but no draw left for the corridor's orientation
    let mut rng = RandomNumberGenerator::from_draws(vec![6, 6, 2, 2, 26, 6, 2, 2]);
    assert_eq!(MapBuilder::generate(&mut rng, 2).err(), Some(GenError::OutOfDraws));
}

#[test]
fn default_level_has_twenty_valid_rooms() {
    let mut rng = RandomNumberGenerator::from_draws(pseudo_random_draws(7, 100_000));
    let mb = MapBuilder::new(&mut rng).unwrap();
    assert_eq!(mb.rooms.len(), NUM_ROOMS);
    assert_eq!(mb.map.tiles.len(), NUM_TILES);
    for (i, a) in mb.rooms.iter().enumerate() {
        assert!(0 <= a.x1 && a.x1 < a.x2 && a.x2 <= SCREEN_WIDTH);
        assert!(0 <= a.y1 && a.y1 < a.y2 && a.y2 <= SCREEN_HEIGHT);
        for (j, b) in mb.rooms.iter().enumerate() {
            if i != j {
                assert!(!a.intersect(b));
            }
        }
    }
    assert_eq!(mb.player_start, mb.rooms[0].center());
}

#[test]
fn every_room_center_is_reachable() {
    for seed in 1..6 {
        let mut rng = RandomNumberGenerator::from_draws(pseudo_random_draws(seed, 100_000));
        let mb = MapBuilder::new(&mut rng).unwrap();
        let seen = reachable_from(&mb, mb.player_start);
        for r in mb.rooms.iter() {
            let c = r.center();
            assert!(seen[map_index(c.x, c.y)]);
        }
    }
}

#[test]
fn same_draws_give_the_same_level() {
    let draws = pseudo_random_draws(42, 100_000);
    let mut a = RandomNumberGenerator::from_draws(draws.clone());
    let mut b = RandomNumberGenerator::from_draws(draws);
    let la = MapBuilder::new(&mut a).unwrap();
    let lb = MapBuilder::new(&mut b).unwrap();
    assert_eq!(la.map.tiles, lb.map.tiles);
    assert_eq!(la.rooms, lb.rooms);
    assert_eq!(la.player_start, lb.player_start);
    assert_eq!(a.remaining(), b.remaining());
}

#[test]
fn corridors_never_turn_floor_into_wall() {
    let mut rng = RandomNumberGenerator::from_draws(pseudo_random_draws(3, 100_000));
    let mb = MapBuilder::new(&mut rng).unwrap();
    for r in mb.rooms.iter() {
        for y in r.y1..r.y2 {
            for x in r.x1..r.x2 {
                assert_eq!(tile(&mb, x, y), TileType::Floor);
            }
        }
    }
}

#[test]
fn sort_by_center_x_is_stable() {
    let a = Rect::with_size(20, 0, 2, 2);
    let b = Rect::with_size(4, 0, 2, 2);
    let c = Rect::with_size(20, 9, 2, 3);
    let d = Rect::with_size(1, 1, 2, 2);
    let sorted = sort_by_center_x(&vec![a, b, c, d]);
    assert_eq!(sorted, vec![d, b, a, c]);
}
