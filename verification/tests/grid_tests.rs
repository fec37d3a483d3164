use dungeon_builder::build_data::{BuildData, BuildError};
use dungeon_builder::chain::MetaMapBuilder;
use dungeon_builder::common::{
    apply_horizontal_tunnel, apply_paint, apply_room_to_map, apply_vertical_tunnel, draw_corridor,
    paint, stagger_step, symmetry_from, CullUnreachable, DistanceAlgorithm, DistantExit, Symmetry,
};
use dungeon_builder::flood::{flood_fill, DEFAULT_FLOOD_DEPTH, UNREACHED};
use dungeon_builder::position::Position;
use dungeon_builder::rect::Rect;
use dungeon_builder::tile_map::{TileMap, TileType, MAPCOUNT, MAPHEIGHT, MAPWIDTH};

fn open_room(width: i32, height: i32) -> TileMap {
    let mut map = TileMap::with_size(width, height, 1);
    for y in 1..height - 1 {
        for x in 1..width - 1 {
            let idx = map.xy_idx(x, y);
            map.tiles[idx] = TileType::Floor;
        }
    }
    map
}

fn data_for(map: TileMap, start: Option<Position>) -> BuildData {
    BuildData {
        spawn_list: Vec::new(),
        map,
        start,
        rooms: None,
        history: Vec::new(),
        record_history: false,
    }
}

fn border_is_wall(map: &TileMap) -> bool {
    for y in 0..map.height {
        for x in 0..map.width {
            if x == 0 || y == 0 || x == map.width - 1 || y == map.height - 1 {
                if map.tiles[map.xy_idx(x, y)] != TileType::Wall {
                    return false;
                }
            }
        }
    }
    true
}

#[test]
fn new_map_is_all_wall_of_standard_size() {
    let map = TileMap::new(3);
    assert_eq!(map.width, 80);
    assert_eq!(map.height, 43);
    assert_eq!(map.depth, 3);
    assert_eq!(MAPWIDTH * MAPHEIGHT, MAPCOUNT);
    assert_eq!(map.tiles.len(), 3440);
    assert_eq!(map.revealed_tiles.len(), 3440);
    assert_eq!(map.visible_tiles.len(), 3440);
    assert_eq!(map.blocked.len(), 3440);
    assert!(map.tiles.iter().all(|t| *t == TileType::Wall));
    assert!(map.blocked.iter().all(|b| !*b));
    assert_eq!(map.count_floor_tiles(), 0);
}

#[test]
fn xy_idx_is_row_major() {
    let map = TileMap::new(1);
    assert_eq!(map.xy_idx(0, 0), 0);
    assert_eq!(map.xy_idx(5, 0), 5);
    assert_eq!(map.xy_idx(0, 1), 80);
    assert_eq!(map.xy_idx(79, 42), 3439);
    assert_eq!(map.center(), (40, 21));
}

#[test]
fn in_bounds_keeps_off_the_border() {
    let map = TileMap::new(1);
    assert!(map.in_bounds(1, 0, 1, 0));
    assert!(map.in_bounds(2, -1, 2, -1));
    assert!(!map.in_bounds(1, -1, 1, 0));
    assert!(!map.in_bounds(78, 1, 5, 0));
    assert!(map.in_bounds(78, 0, 41, 0));
    assert!(!map.in_bounds(5, 0, 42, 0));
    assert!(!map.in_bounds(i32::MAX, 1, 5, 0));
}

#[test]
fn iter_xy_lists_the_interior_row_by_row() {
    let map = TileMap::with_size(5, 4, 1);
    let cells = map.iter_xy();
    assert_eq!(cells, vec![(1, 1), (2, 1), (3, 1), (1, 2), (2, 2), (3, 2)]);
    let standard = TileMap::new(1).iter_xy();
    assert_eq!(standard.len(), 78 * 41);
    assert_eq!(standard[0], (1, 1));
    assert_eq!(standard[78], (1, 2));
    assert_eq!(standard[78 * 41 - 1], (78, 41));
}

#[test]
fn populate_blocked_marks_walls_only() {
    let mut map = open_room(6, 5);
    map.populate_blocked();
    for (i, tile) in map.tiles.iter().enumerate() {
        assert_eq!(map.blocked[i], *tile == TileType::Wall);
    }
    assert!(map.is_exit_valid(1, 1));
    assert!(!map.is_exit_valid(0, 1));
    assert!(!map.is_exit_valid(5, 1));
    assert!(!map.is_exit_valid(6, 1));
    assert!(!map.is_exit_valid(1, -1));
    assert_eq!(map.count_floor_tiles(), 12);
}

#[test]
fn revealed_copy_reveals_everything() {
    let map = open_room(6, 5);
    let copy = map.revealed_copy();
    assert_eq!(copy.tiles, map.tiles);
    assert_eq!(copy.width, 6);
    assert_eq!(copy.height, 5);
    assert!(copy.revealed_tiles.iter().all(|r| *r));
    assert!(map.revealed_tiles.iter().all(|r| !*r));
}

#[test]
fn rect_corners_center_and_intersection() {
    let a = Rect::new(2, 3, 4, 5);
    assert_eq!((a.x1, a.y1, a.x2, a.y2), (2, 3, 6, 8));
    assert_eq!(a.center(), (4, 5));
    assert_eq!(Rect { x1: -5, y1: -3, x2: 2, y2: 0 }.center(), (-1, -1));
    assert_eq!(Rect { x1: -4, y1: -7, x2: 4, y2: 2 }.center(), (0, -2));
    assert_eq!(a.width(), 4);
    assert_eq!(a.height(), 5);
    let touching = Rect::new(6, 8, 2, 2);
    assert!(a.intersect(&touching));
    assert!(touching.intersect(&a));
    let apart = Rect::new(7, 3, 2, 2);
    assert!(!a.intersect(&apart));
    assert!(!apart.intersect(&a));
    let below = Rect::new(2, 9, 4, 1);
    assert!(!a.intersect(&below));
}

#[test]
fn distances_are_squared_summed_or_larger() {
    let a = Position::new(1, 2);
    let b = Position::new(4, 6);
    assert_eq!(DistanceAlgorithm::Pythagoras.apply(a, b), 25);
    assert_eq!(DistanceAlgorithm::Manhattan.apply(a, b), 7);
    assert_eq!(DistanceAlgorithm::Chebyshev.apply(a, b), 4);
    assert_eq!(DistanceAlgorithm::Chebyshev.apply(b, a), 4);
    assert_eq!(DistanceAlgorithm::Pythagoras.apply(a, a), 0);
}

#[test]
fn room_is_carved_right_of_and_below_its_corner() {
    let mut map = TileMap::with_size(10, 10, 1);
    apply_room_to_map(&mut map, &Rect::new(2, 3, 3, 2));
    for y in 0..10 {
        for x in 0..10 {
            let expected = if x > 2 && x <= 5 && y > 3 && y <= 5 {
                TileType::Floor
            } else {
                TileType::Wall
            };
            assert_eq!(map.tiles[map.xy_idx(x, y)], expected, "at {} {}", x, y);
        }
    }
}

#[test]
fn tunnels_cover_both_ends() {
    let mut map = TileMap::with_size(10, 10, 1);
    apply_horizontal_tunnel(&mut map, 7, 3, 4);
    apply_vertical_tunnel(&mut map, 2, 6, 8);
    for y in 0..10 {
        for x in 0..10 {
            let expected = if (y == 4 && x >= 3 && x <= 7) || (x == 8 && y >= 2 && y <= 6) {
                TileType::Floor
            } else {
                TileType::Wall
            };
            assert_eq!(map.tiles[map.xy_idx(x, y)], expected, "at {} {}", x, y);
        }
    }
}

#[test]
fn tunnel_leaves_the_first_cell_of_the_map() {
    let mut map = TileMap::with_size(5, 5, 1);
    apply_horizontal_tunnel(&mut map, 0, 2, 0);
    assert_eq!(map.tiles[0], TileType::Wall);
    assert_eq!(map.tiles[1], TileType::Floor);
    assert_eq!(map.tiles[2], TileType::Floor);
}

#[test]
fn corridor_runs_along_the_row_then_the_column() {
    let mut map = TileMap::with_size(10, 10, 1);
    draw_corridor(&mut map, 2, 2, 5, 4);
    let floor = [(3, 2), (4, 2), (5, 2), (5, 3), (5, 4)];
    for y in 0..10 {
        for x in 0..10 {
            let expected = if floor.contains(&(x, y)) {
                TileType::Floor
            } else {
                TileType::Wall
            };
            assert_eq!(map.tiles[map.xy_idx(x, y)], expected, "at {} {}", x, y);
        }
    }
}

#[test]
fn brush_of_one_paints_one_tile() {
    let mut map = TileMap::with_size(10, 10, 1);
    apply_paint(&mut map, 1, 4, 5);
    assert_eq!(map.count_floor_tiles(), 1);
    assert_eq!(map.tiles[map.xy_idx(4, 5)], TileType::Floor);
}

#[test]
fn brush_of_two_paints_up_and_left() {
    let mut map = TileMap::with_size(10, 10, 1);
    apply_paint(&mut map, 2, 4, 5);
    let floor = [(3, 4), (4, 4), (3, 5), (4, 5)];
    for y in 0..10 {
        for x in 0..10 {
            let expected = if floor.contains(&(x, y)) {
                TileType::Floor
            } else {
                TileType::Wall
            };
            assert_eq!(map.tiles[map.xy_idx(x, y)], expected, "at {} {}", x, y);
        }
    }
}

#[test]
fn large_brush_stays_off_the_border() {
    let mut map = TileMap::with_size(6, 6, 1);
    apply_paint(&mut map, 20, 3, 3);
    assert!(border_is_wall(&map));
    assert_eq!(map.count_floor_tiles(), 16);
}

#[test]
fn paint_mirrors_across_the_centre() {
    let mut map = TileMap::with_size(11, 11, 1);
    paint(&mut map, Symmetry::Horizontal, 1, 3, 4);
    assert_eq!(map.tiles[map.xy_idx(3, 4)], TileType::Floor);
    assert_eq!(map.tiles[map.xy_idx(7, 4)], TileType::Floor);
    assert_eq!(map.count_floor_tiles(), 2);

    let mut map = TileMap::with_size(11, 11, 1);
    paint(&mut map, Symmetry::Vertical, 1, 3, 4);
    assert_eq!(map.tiles[map.xy_idx(3, 4)], TileType::Floor);
    assert_eq!(map.tiles[map.xy_idx(3, 6)], TileType::Floor);
    assert_eq!(map.count_floor_tiles(), 2);

    let mut map = TileMap::with_size(11, 11, 1);
    paint(&mut map, Symmetry::Both, 1, 3, 4);
    assert_eq!(map.tiles[map.xy_idx(3, 4)], TileType::Floor);
    assert_eq!(map.tiles[map.xy_idx(7, 4)], TileType::Floor);
    assert_eq!(map.tiles[map.xy_idx(3, 6)], TileType::Floor);
    assert_eq!(map.count_floor_tiles(), 3);

    let mut map = TileMap::with_size(11, 11, 1);
    paint(&mut map, Symmetry::NoSymmetry, 1, 3, 4);
    assert_eq!(map.count_floor_tiles(), 1);
}

#[test]
fn symmetry_from_numbers() {
    assert!(symmetry_from(0) == Symmetry::NoSymmetry);
    assert!(symmetry_from(1) == Symmetry::Horizontal);
    assert!(symmetry_from(2) == Symmetry::Vertical);
    assert!(symmetry_from(3) == Symmetry::Both);
}

#[test]
fn stagger_step_moves_one_cell_or_stays() {
    let map = TileMap::with_size(10, 8, 1);
    assert_eq!(stagger_step(&map, 5, 4, 1), (4, 4));
    assert_eq!(stagger_step(&map, 5, 4, 2), (6, 4));
    assert_eq!(stagger_step(&map, 5, 4, 3), (5, 3));
    assert_eq!(stagger_step(&map, 5, 4, 4), (5, 5));
    assert_eq!(stagger_step(&map, 2, 2, 1), (2, 2));
    assert_eq!(stagger_step(&map, 2, 2, 3), (2, 2));
    assert_eq!(stagger_step(&map, 8, 6, 2), (8, 6));
    assert_eq!(stagger_step(&map, 8, 6, 4), (8, 6));
    // A digger one cell inside the border stays there or moves inwards.
    assert_eq!(stagger_step(&map, 1, 1, 1), (1, 1));
    assert_eq!(stagger_step(&map, 1, 1, 3), (1, 1));
    assert_eq!(stagger_step(&map, 1, 1, 2), (2, 1));
    assert_eq!(stagger_step(&map, 1, 1, 4), (1, 2));
}

#[test]
fn flood_costs_a_hundred_straight_and_more_across() {
    let mut map = open_room(7, 7);
    map.populate_blocked();
    let start = map.xy_idx(1, 1);
    let distances = flood_fill(&map, &vec![start], DEFAULT_FLOOD_DEPTH);
    assert_eq!(distances.len(), 49);
    assert_eq!(distances[start], 0);
    assert_eq!(distances[map.xy_idx(2, 1)], 100);
    assert_eq!(distances[map.xy_idx(1, 2)], 100);
    assert_eq!(distances[map.xy_idx(2, 2)], 145);
    assert_eq!(distances[map.xy_idx(5, 1)], 400);
    assert_eq!(distances[map.xy_idx(5, 5)], 580);
    assert_eq!(distances[map.xy_idx(3, 2)], 245);
    assert_eq!(distances[map.xy_idx(0, 0)], UNREACHED);
    assert_eq!(distances[map.xy_idx(6, 3)], UNREACHED);
}

#[test]
fn flood_stops_below_its_depth() {
    let mut map = open_room(12, 3);
    map.populate_blocked();
    let start = map.xy_idx(1, 1);
    let distances = flood_fill(&map, &vec![start], 300);
    assert_eq!(distances[map.xy_idx(2, 1)], 100);
    assert_eq!(distances[map.xy_idx(3, 1)], 200);
    assert_eq!(distances[map.xy_idx(4, 1)], UNREACHED);
    assert_eq!(distances[map.xy_idx(10, 1)], UNREACHED);
}

#[test]
fn flood_from_two_starts_takes_the_nearer() {
    let mut map = open_room(12, 3);
    map.populate_blocked();
    let starts = vec![map.xy_idx(1, 1), map.xy_idx(10, 1)];
    let distances = flood_fill(&map, &starts, DEFAULT_FLOOD_DEPTH);
    assert_eq!(distances[map.xy_idx(1, 1)], 0);
    assert_eq!(distances[map.xy_idx(10, 1)], 0);
    assert_eq!(distances[map.xy_idx(4, 1)], 300);
    assert_eq!(distances[map.xy_idx(7, 1)], 300);
    assert_eq!(distances[map.xy_idx(5, 1)], 400);
    assert_eq!(distances[map.xy_idx(6, 1)], 400);
}

#[test]
fn flood_does_not_pass_walls() {
    let mut map = open_room(9, 5);
    for y in 0..5 {
        let idx = map.xy_idx(4, y);
        map.tiles[idx] = TileType::Wall;
    }
    map.populate_blocked();
    let distances = flood_fill(&map, &vec![map.xy_idx(1, 1)], DEFAULT_FLOOD_DEPTH);
    assert_eq!(distances[map.xy_idx(3, 3)], 290);
    assert_eq!(distances[map.xy_idx(5, 1)], UNREACHED);
    assert_eq!(distances[map.xy_idx(7, 3)], UNREACHED);
}

#[test]
fn cull_walls_up_what_the_start_does_not_reach() {
    let mut map = open_room(9, 5);
    for y in 0..5 {
        let idx = map.xy_idx(4, y);
        map.tiles[idx] = TileType::Wall;
    }
    let mut data = data_for(map, Some(Position::new(2, 2)));
    let mut rng = rltk::RandomNumberGenerator::seeded(1);
    CullUnreachable::new().build(&mut rng, &mut data);
    for y in 0..5 {
        for x in 0..9 {
            let expected = if x >= 1 && x <= 3 && y >= 1 && y <= 3 {
                TileType::Floor
            } else {
                TileType::Wall
            };
            assert_eq!(data.map.tiles[data.map.xy_idx(x, y)], expected, "at {} {}", x, y);
        }
    }
}

#[test]
fn culling_twice_is_culling_once() {
    let mut rng = rltk::RandomNumberGenerator::seeded(7);
    let mut map = TileMap::with_size(30, 20, 1);
    for y in 1..19 {
        for x in 1..29 {
            if rng.roll_dice(1, 100) > 45 {
                let idx = map.xy_idx(x, y);
                map.tiles[idx] = TileType::Floor;
            }
        }
    }
    let idx = map.xy_idx(15, 10);
    map.tiles[idx] = TileType::Floor;
    let mut data = data_for(map, Some(Position::new(15, 10)));
    CullUnreachable::new().build(&mut rng, &mut data);
    let once = data.map.tiles.clone();
    CullUnreachable::new().build(&mut rng, &mut data);
    assert_eq!(data.map.tiles, once);
    let distances = flood_fill(&data.map, &vec![data.map.xy_idx(15, 10)], DEFAULT_FLOOD_DEPTH);
    for (i, tile) in data.map.tiles.iter().enumerate() {
        if *tile == TileType::Floor {
            assert!(distances[i] != UNREACHED);
        }
    }
}

#[test]
fn cull_without_a_start_is_refused() {
    let mut data = data_for(open_room(9, 5), None);
    let before = data.map.tiles.clone();
    let mut rng = rltk::RandomNumberGenerator::seeded(1);
    assert!(CullUnreachable::new().build_map(&mut rng, &mut data) == Err(BuildError::NoStartingPosition));
    assert!(DistantExit::new().build_map(&mut rng, &mut data) == Err(BuildError::NoStartingPosition));
    assert_eq!(data.map.tiles, before);
    data.start = Some(Position::new(9, 2));
    assert!(CullUnreachable::new().build_map(&mut rng, &mut data) == Err(BuildError::NoStartingPosition));
    data.start = Some(Position::new(2, 2));
    assert!(CullUnreachable::new().build_map(&mut rng, &mut data) == Ok(()));
}

#[test]
fn exit_goes_on_the_farthest_floor_tile() {
    let mut data = data_for(open_room(12, 3), Some(Position::new(1, 1)));
    let mut rng = rltk::RandomNumberGenerator::seeded(1);
    let exit = DistantExit::new().build(&mut rng, &mut data).unwrap();
    assert_eq!(exit, data.map.xy_idx(10, 1));
    assert_eq!(data.map.tiles[exit], TileType::DownStairs);
    let stairs = data.map.tiles.iter().filter(|t| **t == TileType::DownStairs).count();
    assert_eq!(stairs, 1);
    assert_eq!(data.map.count_floor_tiles(), 9);
}

#[test]
fn exit_takes_the_first_of_the_farthest() {
    let mut data = data_for(open_room(5, 5), Some(Position::new(2, 2)));
    let mut rng = rltk::RandomNumberGenerator::seeded(1);
    let exit = DistantExit::new().build(&mut rng, &mut data);
    assert_eq!(exit, Some(data.map.xy_idx(1, 1)));
}

#[test]
fn exit_falls_on_the_start_where_nothing_else_is_reached() {
    let mut map = TileMap::with_size(5, 5, 1);
    let idx = map.xy_idx(2, 2);
    map.tiles[idx] = TileType::Floor;
    let mut data = data_for(map, Some(Position::new(2, 2)));
    let mut rng = rltk::RandomNumberGenerator::seeded(1);
    let exit = DistantExit::new().build(&mut rng, &mut data);
    assert_eq!(exit, Some(idx));
}

#[test]
fn exit_is_refused_where_no_floor_is_reached() {
    let map = TileMap::with_size(5, 5, 1);
    let mut data = data_for(map, Some(Position::new(2, 2)));
    data.record_history = true;
    let before = data.map.tiles.clone();
    let blocked = data.map.blocked.clone();
    let mut rng = rltk::RandomNumberGenerator::seeded(1);
    assert_eq!(DistantExit::new().build(&mut rng, &mut data), None);
    assert_eq!(data.map.tiles, before);
    assert_eq!(data.map.blocked, blocked);
    assert!(data.history.is_empty());
    assert!(DistantExit::new().build_map(&mut rng, &mut data) == Err(BuildError::NoExit));
    assert_eq!(data.map.tiles, before);
    // Floor that the flood cannot reach from a start on a wall is no exit
    // either.
    let idx = data.map.xy_idx(1, 1);
    data.map.tiles[idx] = TileType::Floor;
    data.start = Some(Position::new(3, 3));
    assert_eq!(DistantExit::new().build(&mut rng, &mut data), None);
    assert_eq!(count_stairs(&data.map), 0);
}

fn count_stairs(map: &TileMap) -> usize {
    map.tiles.iter().filter(|t| **t == TileType::DownStairs).count()
}

#[test]
fn snapshots_are_taken_only_when_recorded() {
    let mut data = data_for(open_room(5, 5), None);
    data.take_snapshot();
    assert_eq!(data.history.len(), 0);
    data.record_history = true;
    data.take_snapshot();
    data.take_snapshot();
    assert_eq!(data.history.len(), 2);
    assert_eq!(data.history[1].tiles, data.map.tiles);
    assert!(data.history[1].revealed_tiles.iter().all(|r| *r));
    let fresh = BuildData::new(4, true);
    assert_eq!(fresh.map.depth, 4);
    assert!(fresh.start.is_none());
    assert!(fresh.rooms.is_none());
    assert!(fresh.spawn_list.is_empty());
}

#[test]
fn dice_stay_on_their_faces() {
    let mut rng = rltk::RandomNumberGenerator::seeded(5);
    for _ in 0..200 {
        let r = rng.roll_dice(1, 6);
        assert!(r >= 1 && r <= 6);
    }
}
