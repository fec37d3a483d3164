use dungeon_builder::area_based_gen::{AreaStartingPosition, VoronoiSpawning, XStart, YStart};
use dungeon_builder::bsp_dungeon::{sub_rect, BspDungeonBuilder};
use dungeon_builder::bsp_interior::{split_rect, BspInteriorBuilder};
use dungeon_builder::build_data::{BuildData, BuildError};
use dungeon_builder::cellular_automata::CellularAutomataBuilder;
use dungeon_builder::chain::{InitialMapBuilder, MetaMapBuilder};
use dungeon_builder::common::{
    apply_room_to_map, CullUnreachable, Digger, DistanceAlgorithm, DistantExit, Symmetry,
};
use dungeon_builder::dla::{algorithm_from, DLAAlgorithm, DLABuilder, TileDigger};
use dungeon_builder::drunkard::{DrunkDigger, DrunkSpawnMode, DrunkardSettings, DrunkardsWalkBuilder};
use dungeon_builder::flood::{flood_fill, DEFAULT_FLOOD_DEPTH, UNREACHED};
use dungeon_builder::maze::{Cell, Grid, MazeBuilder};
use dungeon_builder::position::Position;
use dungeon_builder::rect::Rect;
use dungeon_builder::room_based_gen::{RoomBasedSpawner, RoomBasedStairs, RoomBasedStartingPosition};
use dungeon_builder::simple_map::{connect, fits_among, SimpleMapBuilder};
use dungeon_builder::spawner::{
    is_claimed, monster_name, room_floor, spawn_candidates, spawn_count, spawn_region, spawn_room,
};
use dungeon_builder::tile_map::{TileMap, TileType};
use dungeon_builder::voronoi::{VoronoiBuilder, VoronoiDiagram};

fn fresh(width: i32, height: i32) -> BuildData {
    BuildData {
        spawn_list: Vec::new(),
        map: TileMap::with_size(width, height, 1),
        start: None,
        rooms: None,
        history: Vec::new(),
        record_history: false,
    }
}

fn closed(map: &TileMap) -> bool {
    for y in 0..map.height {
        for x in 0..map.width {
            if x == 0 || y == 0 || x == map.width - 1 || y == map.height - 1 {
                if map.tiles[map.xy_idx(x, y)] != TileType::Wall {
                    return false;
                }
            }
        }
    }
    true
}

fn count(map: &TileMap, kind: TileType) -> usize {
    map.tiles.iter().filter(|t| **t == kind).count()
}

fn spawns_are_valid(data: &BuildData) -> bool {
    for (i, spawn) in data.spawn_list.iter().enumerate() {
        if data.map.tiles[spawn.0] != TileType::Floor {
            return false;
        }
        for other in data.spawn_list.iter().skip(i + 1) {
            if other.0 == spawn.0 {
                return false;
            }
        }
    }
    true
}

#[test]
fn two_rooms_and_a_corridor_on_a_small_map() {
    let mut data = fresh(9, 9);
    let first = Rect::new(0, 0, 3, 3);
    let second = Rect::new(4, 4, 3, 3);
    assert!(fits_among(&vec![first], &second));
    apply_room_to_map(&mut data.map, &first);
    apply_room_to_map(&mut data.map, &second);
    let from = first.center();
    let to = second.center();
    assert_eq!(from, (1, 1));
    assert_eq!(to, (5, 5));
    connect(&mut data.map, from.0, from.1, to.0, to.1, true);
    data.rooms = Some(vec![first, second]);
    let mut rng = rltk::RandomNumberGenerator::seeded(3);
    RoomBasedStartingPosition::new().build(&mut rng, &mut data);
    RoomBasedStairs::new().build(&mut rng, &mut data);
    assert_eq!(data.rooms.as_ref().unwrap().len(), 2);
    let start = data.start.unwrap();
    assert_eq!((start.x, start.y), (1, 1));
    let stairs = data.map.xy_idx(5, 5);
    assert_eq!(data.map.tiles[stairs], TileType::DownStairs);
    assert_eq!(count(&data.map, TileType::DownStairs), 1);
    assert!(closed(&data.map));
    data.map.populate_blocked();
    let distances = flood_fill(&data.map, &vec![data.map.xy_idx(1, 1)], DEFAULT_FLOOD_DEPTH);
    assert!(distances[stairs] != UNREACHED);
    for x in 1..=5 {
        assert!(data.map.tiles[data.map.xy_idx(x, 1)] != TileType::Wall);
    }
    for y in 1..=5 {
        assert!(data.map.tiles[data.map.xy_idx(5, y)] != TileType::Wall);
    }
}

#[test]
fn rooms_that_touch_do_not_fit() {
    let placed = vec![Rect::new(2, 2, 4, 4), Rect::new(10, 2, 4, 4)];
    assert!(!fits_among(&placed, &Rect::new(6, 6, 3, 3)));
    assert!(!fits_among(&placed, &Rect::new(12, 0, 3, 3)));
    assert!(fits_among(&placed, &Rect::new(7, 7, 3, 3)));
    assert!(fits_among(&Vec::new(), &Rect::new(0, 0, 1, 1)));
}

#[test]
fn connect_column_first() {
    let mut map = TileMap::with_size(9, 9, 1);
    connect(&mut map, 2, 2, 5, 6, false);
    let mut expected = 0;
    for y in 0..9 {
        for x in 0..9 {
            let on = (x == 2 && y >= 2 && y <= 6) || (y == 6 && x >= 2 && x <= 5);
            if on {
                expected += 1;
                assert_eq!(map.tiles[map.xy_idx(x, y)], TileType::Floor);
            }
        }
    }
    assert_eq!(map.count_floor_tiles(), expected);
}

#[test]
fn simple_map_rooms_keep_apart() {
    let mut data = BuildData::new(1, false);
    let mut rng = rltk::RandomNumberGenerator::seeded(42);
    SimpleMapBuilder::new().rooms_and_corridors(&mut rng, &mut data);
    let rooms = data.rooms.clone().unwrap();
    assert!(!rooms.is_empty());
    assert!(rooms.len() <= 30);
    for (i, room) in rooms.iter().enumerate() {
        assert!(room.x1 >= 0 && room.y1 >= 0);
        assert!(room.x2 <= 78 && room.y2 <= 41);
        assert!(room.x2 - room.x1 >= 6 && room.x2 - room.x1 < 10);
        for other in rooms.iter().skip(i + 1) {
            assert!(!room.intersect(other));
        }
        for y in room.y1 + 1..=room.y2 {
            for x in room.x1 + 1..=room.x2 {
                assert_eq!(data.map.tiles[data.map.xy_idx(x, y)], TileType::Floor);
            }
        }
    }
    assert!(closed(&data.map));
    data.map.populate_blocked();
    let first = rooms[0].center();
    let distances = flood_fill(&data.map, &vec![data.map.xy_idx(first.0, first.1)], DEFAULT_FLOOD_DEPTH);
    for room in rooms.iter() {
        let c = room.center();
        assert!(distances[data.map.xy_idx(c.0, c.1)] != UNREACHED);
    }
}

#[test]
fn simple_map_needs_room() {
    let mut data = fresh(10, 20);
    let mut rng = rltk::RandomNumberGenerator::seeded(1);
    assert!(SimpleMapBuilder::new().build_map(&mut rng, &mut data) == Err(BuildError::MapTooSmall));
    assert!(data.rooms.is_none());
    let mut data = fresh(11, 11);
    assert!(SimpleMapBuilder::new().build_map(&mut rng, &mut data) == Ok(()));
    assert!(data.rooms.is_some());
}

#[test]
fn room_stages_need_rooms() {
    let mut data = fresh(20, 20);
    let mut rng = rltk::RandomNumberGenerator::seeded(1);
    assert!(RoomBasedSpawner::new().build_map(&mut rng, &mut data) == Err(BuildError::NoRooms));
    assert!(RoomBasedStartingPosition::new().build_map(&mut rng, &mut data) == Err(BuildError::NoRooms));
    assert!(RoomBasedStairs::new().build_map(&mut rng, &mut data) == Err(BuildError::NoRooms));
    data.rooms = Some(Vec::new());
    assert!(RoomBasedSpawner::new().build_map(&mut rng, &mut data) == Ok(()));
    assert!(RoomBasedStartingPosition::new().build_map(&mut rng, &mut data) == Err(BuildError::NoRooms));
    assert!(RoomBasedStairs::new().build_map(&mut rng, &mut data) == Err(BuildError::NoRooms));
    data.rooms = Some(vec![Rect::new(30, 30, 4, 4)]);
    assert!(RoomBasedStairs::new().build_map(&mut rng, &mut data) == Err(BuildError::NoRooms));
    assert!(RoomBasedStartingPosition::new().build_map(&mut rng, &mut data) == Ok(()));
    assert!(data.start == Some(Position::new(32, 32)));
    assert_eq!(count(&data.map, TileType::DownStairs), 0);
}

#[test]
fn room_spawner_skips_the_first_room() {
    let mut data = fresh(30, 12);
    let rooms = vec![Rect::new(1, 1, 8, 8), Rect::new(11, 1, 8, 8), Rect::new(20, 1, 8, 8)];
    for room in rooms.iter() {
        apply_room_to_map(&mut data.map, room);
    }
    data.rooms = Some(rooms.clone());
    data.map.depth = 10;
    let mut rng = rltk::RandomNumberGenerator::seeded(9);
    RoomBasedSpawner::new().build(&mut rng, &mut data);
    assert!(!data.spawn_list.is_empty());
    assert!(spawns_are_valid(&data));
    for spawn in data.spawn_list.iter() {
        let x = (spawn.0 % 30) as i32;
        let y = (spawn.0 / 30) as i32;
        assert!(x > rooms[0].x2);
        assert!(y > 1 && y < 9);
        assert!(spawn.1 == "Orc" || spawn.1 == "Goblin");
    }
}

#[test]
fn spawn_region_takes_unused_floor_only() {
    let mut map = TileMap::with_size(10, 10, 1);
    for x in 1..9 {
        let idx = map.xy_idx(x, 5);
        map.tiles[idx] = TileType::Floor;
    }
    let area: Vec<usize> = vec![51, 52, 52, 53, 3, 999, 54];
    let mut list: Vec<(usize, String)> = vec![(53, "Rations".to_string())];
    let mut rng = rltk::RandomNumberGenerator::seeded(2);
    spawn_region(&map, &mut rng, &area, 20, &mut list);
    assert_eq!(list[0], (53, "Rations".to_string()));
    assert_eq!(list.len(), 4);
    let mut seen: Vec<usize> = list.iter().map(|s| s.0).collect();
    seen.sort();
    assert_eq!(seen, vec![51, 52, 53, 54]);
    assert!(is_claimed(&list, 51));
    assert!(!is_claimed(&list, 55));
}

#[test]
fn spawn_region_spawns_nothing_on_a_low_roll() {
    let mut map = TileMap::with_size(10, 10, 1);
    for x in 1..9 {
        let idx = map.xy_idx(x, 5);
        map.tiles[idx] = TileType::Floor;
    }
    let area: Vec<usize> = vec![51, 52, 53];
    let mut list: Vec<(usize, String)> = Vec::new();
    let mut rng = rltk::RandomNumberGenerator::seeded(2);
    spawn_region(&map, &mut rng, &area, -10, &mut list);
    assert!(list.is_empty());
}

#[test]
fn spawn_room_stays_inside_the_room() {
    let mut map = TileMap::with_size(20, 20, 9);
    let room = Rect::new(3, 3, 6, 6);
    apply_room_to_map(&mut map, &room);
    let mut list: Vec<(usize, String)> = Vec::new();
    let mut rng = rltk::RandomNumberGenerator::seeded(4);
    spawn_room(&map, &mut rng, &room, 9, &mut list);
    assert!(!list.is_empty());
    for spawn in list.iter() {
        let x = (spawn.0 % 20) as i32;
        let y = (spawn.0 / 20) as i32;
        assert!(x > 3 && x < 9 && y > 3 && y < 9);
    }
}

#[test]
fn spawn_candidates_are_the_unused_floor_tiles_once() {
    let mut map = TileMap::with_size(10, 10, 1);
    for x in 1..9 {
        let idx = map.xy_idx(x, 5);
        map.tiles[idx] = TileType::Floor;
    }
    let area: Vec<usize> = vec![54, 52, 52, 53, 3, 999, 51];
    let list: Vec<(usize, String)> = vec![(53, "Rations".to_string())];
    assert_eq!(spawn_candidates(&map, &area, &list), vec![54, 52, 51]);
    assert!(spawn_candidates(&map, &Vec::new(), &list).is_empty());
}

#[test]
fn spawn_count_follows_the_budget() {
    assert_eq!(spawn_count(10, 1, 1), 0);
    assert_eq!(spawn_count(10, 3, 1), 0);
    assert_eq!(spawn_count(10, 4, 1), 1);
    assert_eq!(spawn_count(10, 7, 1), 4);
    assert_eq!(spawn_count(2, 7, 5), 2);
    assert_eq!(spawn_count(0, 7, 5), 0);
    assert_eq!(spawn_count(10, 1, i32::MIN), 0);
    assert_eq!(spawn_count(5, 7, i32::MAX), 5);
}

#[test]
fn room_floor_lists_the_inside_of_the_room() {
    let mut map = TileMap::with_size(20, 20, 1);
    let room = Rect::new(3, 3, 3, 2);
    apply_room_to_map(&mut map, &room);
    assert_eq!(room_floor(&map, &room), vec![84, 85]);
    let off_map = Rect::new(30, 30, 4, 4);
    assert!(room_floor(&map, &off_map).is_empty());
}

#[test]
fn spawn_region_spawns_as_many_as_the_budget_at_most() {
    let mut map = TileMap::with_size(10, 10, 1);
    for y in 1..9 {
        for x in 1..9 {
            let idx = map.xy_idx(x, y);
            map.tiles[idx] = TileType::Floor;
        }
    }
    let area: Vec<usize> = (11..89).collect();
    for seed in 0..20 {
        let mut list: Vec<(usize, String)> = Vec::new();
        let mut rng = rltk::RandomNumberGenerator::seeded(seed);
        spawn_region(&map, &mut rng, &area, 4, &mut list);
        assert!(list.len() >= 1 && list.len() <= 7);
    }
}

#[test]
fn monsters_by_roll() {
    assert_eq!(monster_name(1), "Orc");
    assert_eq!(monster_name(2), "Goblin");
}

#[test]
fn bsp_sub_rect_is_at_least_four_wide() {
    let rect = Rect::new(2, 2, 20, 20);
    let room = sub_rect(rect, 1, 10, 1, 6);
    assert_eq!((room.x1, room.y1, room.x2, room.y2), (2, 7, 6, 17));
    let room = sub_rect(rect, 7, 4, 3, 2);
    assert_eq!((room.x1, room.y1, room.x2, room.y2), (4, 3, 11, 7));
}

#[test]
fn bsp_add_subrects_adds_four_quarters() {
    let mut builder = BspDungeonBuilder::new(1);
    builder.add_subrects(Rect::new(2, 2, 75, 38));
    let quarters: Vec<(i32, i32, i32, i32)> = builder.rects.iter().map(|r| (r.x1, r.y1, r.x2, r.y2)).collect();
    assert_eq!(quarters, vec![(2, 2, 39, 21), (2, 21, 39, 40), (39, 2, 76, 21), (39, 21, 76, 40)]);
    builder.add_subrects(Rect::new(5, 5, 1, 1));
    assert_eq!(builder.rects.len(), 8);
    assert_eq!((builder.rects[7].x1, builder.rects[7].y1, builder.rects[7].x2, builder.rects[7].y2), (6, 6, 7, 7));
}

#[test]
fn bsp_is_possible_wants_walls_and_margin() {
    let builder = BspDungeonBuilder::new(1);
    let mut map = TileMap::with_size(20, 20, 1);
    assert!(builder.is_possible(Rect::new(3, 3, 5, 5), &map));
    assert!(!builder.is_possible(Rect::new(2, 3, 5, 5), &map));
    assert!(!builder.is_possible(Rect::new(3, 3, 14, 5), &map));
    assert!(builder.is_possible(Rect::new(3, 3, 13, 13), &map));
    let idx = map.xy_idx(10, 10);
    map.tiles[idx] = TileType::Floor;
    assert!(!builder.is_possible(Rect::new(3, 3, 5, 5), &map));
    assert!(builder.is_possible(Rect::new(3, 3, 4, 4), &map));
}

#[test]
fn bsp_dungeon_rooms_are_sorted_and_apart() {
    let mut data = BuildData::new(1, false);
    let mut rng = rltk::RandomNumberGenerator::seeded(17);
    let mut builder = BspDungeonBuilder::new(1);
    builder.build(&mut rng, &mut data);
    let rooms = data.rooms.clone().unwrap();
    assert!(rooms.len() >= 2);
    for (i, room) in rooms.iter().enumerate() {
        if i + 1 < rooms.len() {
            assert!(room.x1 <= rooms[i + 1].x1);
        }
        for other in rooms.iter().skip(i + 1) {
            assert!(!room.intersect(other));
        }
        assert!(room.x1 >= 3 && room.x2 <= 76 && room.y1 >= 3 && room.y2 <= 39);
    }
    assert!(closed(&data.map));
    data.map.populate_blocked();
    let first = rooms[0];
    let distances = flood_fill(&data.map, &vec![data.map.xy_idx(first.x1 + 1, first.y1 + 1)], DEFAULT_FLOOD_DEPTH);
    for room in rooms.iter() {
        assert!(distances[data.map.xy_idx(room.x1 + 1, room.y1 + 1)] != UNREACHED);
    }
}

#[test]
fn bsp_interior_split_by_roll() {
    let rect = Rect::new(1, 1, 78, 41);
    let (left, right) = split_rect(rect, 1);
    assert_eq!((left.x1, left.y1, left.x2, left.y2), (1, 1, 39, 42));
    assert_eq!((right.x1, right.y1, right.x2, right.y2), (40, 1, 79, 42));
    let (top, bottom) = split_rect(rect, 4);
    assert_eq!((top.x1, top.y1, top.x2, top.y2), (1, 1, 79, 20));
    assert_eq!((bottom.x1, bottom.y1, bottom.x2, bottom.y2), (1, 21, 79, 41));
}

#[test]
fn bsp_interior_fills_the_interior() {
    let mut data = BuildData::new(1, false);
    let mut rng = rltk::RandomNumberGenerator::seeded(23);
    let mut builder = BspInteriorBuilder::new(1);
    builder.build(&mut rng, &mut data);
    let rooms = data.rooms.clone().unwrap();
    assert!(rooms.len() >= 2);
    for room in rooms.iter() {
        assert!(room.x1 >= 1 && room.x2 <= 79 && room.y1 >= 1 && room.y2 <= 42);
        assert!(room.x2 - room.x1 >= 3 && room.y2 - room.y1 >= 3);
    }
    assert!(closed(&data.map));
    data.map.populate_blocked();
    let first = rooms[0];
    let distances = flood_fill(&data.map, &vec![data.map.xy_idx(first.x1, first.y1)], DEFAULT_FLOOD_DEPTH);
    for room in rooms.iter() {
        assert!(distances[data.map.xy_idx(room.x1, room.y1)] != UNREACHED);
    }
}

#[test]
fn bsp_interior_partitions_share_no_cell() {
    for seed in [3, 23, 99] {
        let mut data = BuildData::new(1, false);
        let mut rng = rltk::RandomNumberGenerator::seeded(seed);
        let mut builder = BspInteriorBuilder::new(1);
        builder.build(&mut rng, &mut data);
        let rooms = data.rooms.clone().unwrap();
        let mut owner = vec![0usize; 3440];
        for room in rooms.iter() {
            for y in room.y1..room.y2 {
                for x in room.x1..room.x2 {
                    owner[data.map.xy_idx(x, y)] += 1;
                }
            }
        }
        assert!(owner.iter().all(|n| *n <= 1));
    }
}

#[test]
fn simple_map_always_has_a_room() {
    for seed in 0..10 {
        let mut data = fresh(11, 11);
        let mut rng = rltk::RandomNumberGenerator::seeded(seed);
        SimpleMapBuilder::new().rooms_and_corridors(&mut rng, &mut data);
        let rooms = data.rooms.clone().unwrap();
        assert!(!rooms.is_empty());
        assert!(data.map.count_floor_tiles() > 0);
    }
}

#[test]
fn automaton_rule_on_a_small_map() {
    let mut data = fresh(5, 5);
    let idx = data.map.xy_idx(2, 2);
    data.map.tiles[idx] = TileType::Floor;
    let mut builder = CellularAutomataBuilder::new();
    builder.apply_iteration(&mut data);
    // Every cell off the border has a wall beside it, on its row or its
    // column: all of them become floor.
    assert_eq!(data.map.count_floor_tiles(), 9);

    // The middle cell has floor on all four sides and walls on its
    // diagonals only: it becomes a wall, whatever it was.
    let mut data = fresh(5, 5);
    for (x, y) in [(2, 1), (1, 2), (2, 2), (3, 2), (2, 3)] {
        let idx = data.map.xy_idx(x, y);
        data.map.tiles[idx] = TileType::Floor;
    }
    builder.apply_iteration(&mut data);
    let floor: Vec<usize> = data
        .map
        .tiles
        .iter()
        .enumerate()
        .filter(|(_, t)| **t == TileType::Floor)
        .map(|(i, _)| i)
        .collect();
    assert_eq!(floor, vec![6, 7, 8, 11, 13, 16, 17, 18]);
    assert!(closed(&data.map));
}

#[test]
fn caves_after_culling_have_a_farthest_exit() {
    let mut data = BuildData::new(1, false);
    let mut rng = rltk::RandomNumberGenerator::seeded(2024);
    CellularAutomataBuilder::new().build(&mut rng, &mut data);
    assert!(closed(&data.map));
    assert!(AreaStartingPosition::new(XStart::CENTER, YStart::CENTER).build_map(&mut rng, &mut data) == Ok(()));
    let start = data.start.unwrap();
    let start_idx = data.map.xy_idx(start.x, start.y);
    assert_eq!(data.map.tiles[start_idx], TileType::Floor);
    CullUnreachable::new().build(&mut rng, &mut data);
    assert!(data.map.count_floor_tiles() >= 1);
    let exit = DistantExit::new().build(&mut rng, &mut data).unwrap();
    assert_eq!(count(&data.map, TileType::DownStairs), 1);
    assert!(closed(&data.map));
    let distances = flood_fill(&data.map, &vec![start_idx], DEFAULT_FLOOD_DEPTH);
    assert!(distances[exit] != UNREACHED);
    for (i, tile) in data.map.tiles.iter().enumerate() {
        if *tile == TileType::Floor {
            assert!(distances[i] != UNREACHED);
            assert!(distances[i] <= distances[exit]);
            if i < exit {
                assert!(distances[i] < distances[exit]);
            }
        }
    }
    let start_tile = data.map.tiles[start_idx];
    assert!(start_tile == TileType::Floor || start_tile == TileType::DownStairs);
}

#[test]
fn area_start_takes_the_nearest_floor() {
    let mut data = fresh(20, 10);
    for (x, y) in [(3, 3), (12, 5), (8, 5), (17, 8)] {
        let idx = data.map.xy_idx(x, y);
        data.map.tiles[idx] = TileType::Floor;
    }
    let mut rng = rltk::RandomNumberGenerator::seeded(1);
    AreaStartingPosition::new(XStart::CENTER, YStart::CENTER).build(&mut rng, &mut data);
    assert!(data.start == Some(Position::new(8, 5)));
    AreaStartingPosition::new(XStart::LEFT, YStart::TOP).build(&mut rng, &mut data);
    assert!(data.start == Some(Position::new(3, 3)));
    AreaStartingPosition::new(XStart::RIGHT, YStart::BOTTOM).build(&mut rng, &mut data);
    assert!(data.start == Some(Position::new(17, 8)));
    let idx = data.map.xy_idx(8, 5);
    assert_eq!(AreaStartingPosition::nearest_floor(&data.map, 10, 5), Some(idx));
}

#[test]
fn area_start_needs_floor() {
    let mut data = fresh(20, 10);
    let mut rng = rltk::RandomNumberGenerator::seeded(1);
    assert!(AreaStartingPosition::new(XStart::CENTER, YStart::CENTER).build_map(&mut rng, &mut data) == Err(BuildError::NoFloor));
    assert!(data.start.is_none());
}

#[test]
fn regions_group_floor_by_label() {
    let mut map = TileMap::with_size(6, 5, 1);
    for (x, y) in [(1, 1), (2, 1), (3, 1), (1, 2), (4, 3), (0, 2)] {
        let idx = map.xy_idx(x, y);
        map.tiles[idx] = TileType::Floor;
    }
    let mut noise = vec![0; 30];
    noise[7] = 5;
    noise[8] = 9;
    noise[9] = 5;
    noise[13] = 9;
    noise[22] = -3;
    let stage = VoronoiSpawning::with_noise(noise);
    let regions = stage.regions(&map);
    assert_eq!(regions, vec![(5, vec![7, 9]), (9, vec![8, 13]), (-3, vec![22])]);
    let plain = VoronoiSpawning::new();
    assert_eq!(plain.regions(&map), vec![(0, vec![7, 8, 9, 13, 22])]);
}

#[test]
fn region_spawns_are_valid() {
    let mut data = BuildData::new(8, false);
    let mut rng = rltk::RandomNumberGenerator::seeded(5);
    CellularAutomataBuilder::new().build(&mut rng, &mut data);
    let noise: Vec<i32> = (0..3440).map(|i| ((i % 80) / 10 + 8 * ((i / 80) / 10)) as i32).collect();
    let mut stage = VoronoiSpawning::with_noise(noise);
    stage.build(&mut rng, &mut data);
    assert!(!data.spawn_list.is_empty());
    assert!(spawns_are_valid(&data));
}

#[test]
fn drunkards_reach_their_target() {
    for stage in [
        DrunkardsWalkBuilder::open_area(),
        DrunkardsWalkBuilder::open_halls(),
        DrunkardsWalkBuilder::winding_passages(),
        DrunkardsWalkBuilder::fat_passages(),
        DrunkardsWalkBuilder::fearful_symmetry(),
    ] {
        let mut stage = stage;
        let mut data = BuildData::new(1, false);
        let mut rng = rltk::RandomNumberGenerator::seeded(99);
        let reached = stage.build(&mut rng, &mut data);
        assert!(reached);
        let desired = 3440 * stage.settings.floor_percent as usize / 100;
        assert!(data.map.count_floor_tiles() >= desired);
        assert_eq!(count(&data.map, TileType::DownStairs), 0);
        assert!(closed(&data.map));
        assert_eq!(data.map.tiles[data.map.xy_idx(40, 21)], TileType::Floor);
    }
}

#[test]
fn drunkard_presets() {
    let stage = DrunkardsWalkBuilder::preset(1);
    assert!(stage.settings.spawn_mode == DrunkSpawnMode::StartingPoint);
    assert_eq!(stage.settings.lifespan, 400);
    assert_eq!(stage.settings.floor_percent, 50);
    let stage = DrunkardsWalkBuilder::preset(4);
    assert_eq!(stage.settings.brush_size, 2);
    assert_eq!(stage.settings.floor_percent, 40);
    let stage = DrunkardsWalkBuilder::preset(5);
    assert!(stage.settings.symmetry == Symmetry::Both);
    let stage = DrunkardsWalkBuilder::random();
    assert!(stage.settings.lifespan == 100 || stage.settings.lifespan == 400);
}

#[test]
fn drunk_digger_marks_its_way() {
    let mut map = TileMap::with_size(20, 20, 1);
    let settings = DrunkardSettings {
        spawn_mode: DrunkSpawnMode::StartingPoint,
        lifespan: 10,
        floor_percent: 50,
        brush_size: 1,
        symmetry: Symmetry::NoSymmetry,
    };
    let mut drunk = DrunkDigger::new(10, 10, settings);
    let mut rng = rltk::RandomNumberGenerator::seeded(8);
    drunk.stagger(&mut map, &mut rng);
    assert!(drunk.did_something);
    assert_eq!(drunk.settings.lifespan, 0);
    assert_eq!(map.tiles[map.xy_idx(10, 10)], TileType::DownStairs);
    let marks = count(&map, TileType::DownStairs);
    assert!(marks >= 1 && marks <= 10);
    assert_eq!(map.count_floor_tiles(), 0);
    DrunkardsWalkBuilder::clear_marks(&mut map);
    assert_eq!(map.count_floor_tiles(), marks);
}

#[test]
fn tile_digger_stops_off_its_kind() {
    let mut map = TileMap::with_size(20, 20, 1);
    for y in 8..13 {
        for x in 8..13 {
            let idx = map.xy_idx(x, y);
            map.tiles[idx] = TileType::Floor;
        }
    }
    let before = map.tiles.clone();
    let mut digger = TileDigger::new(10, 10, TileType::Floor);
    let mut rng = rltk::RandomNumberGenerator::seeded(8);
    let prev = digger.stagger(&mut map, &mut rng);
    assert_eq!(map.tiles, before);
    let at = digger.get_position();
    assert_eq!(map.tiles[map.xy_idx(at.0, at.1)], TileType::Wall);
    assert_eq!(map.tiles[map.xy_idx(prev.0, prev.1)], TileType::Floor);
    assert_eq!((at.0 - prev.0).abs() + (at.1 - prev.1).abs(), 1);
    digger.set_position(3, 4);
    assert_eq!(digger.get_position(), (3, 4));
}

#[test]
fn dla_algorithms_reach_their_target() {
    for algorithm in [DLAAlgorithm::WalkInwards, DLAAlgorithm::WalkOutwards, DLAAlgorithm::CentralAttractor] {
        let mut stage = DLABuilder { algorithm, symmetry: Symmetry::NoSymmetry, brush_size: 2, floor_percent: 25 };
        let mut data = BuildData::new(1, false);
        let mut rng = rltk::RandomNumberGenerator::seeded(31);
        let reached = stage.build(&mut rng, &mut data);
        assert!(reached);
        assert!(data.map.count_floor_tiles() >= 860);
        assert!(closed(&data.map));
        assert_eq!(data.map.tiles[data.map.xy_idx(40, 21)], TileType::Floor);
        assert_eq!(data.map.tiles[data.map.xy_idx(39, 21)], TileType::Floor);
        assert_eq!(data.map.tiles[data.map.xy_idx(40, 22)], TileType::Floor);
    }
}

#[test]
fn dla_seed_is_floor_whatever_the_walks_do() {
    for algorithm in [DLAAlgorithm::WalkInwards, DLAAlgorithm::WalkOutwards, DLAAlgorithm::CentralAttractor] {
        for floor_percent in [0, 1, 10] {
            let mut stage = DLABuilder { algorithm, symmetry: Symmetry::Both, brush_size: 1, floor_percent };
            let mut data = BuildData::new(1, true);
            let mut rng = rltk::RandomNumberGenerator::seeded(7);
            let reached = stage.build(&mut rng, &mut data);
            assert!(reached);
            for (x, y) in [(40, 21), (39, 21), (41, 21), (40, 20), (40, 22)] {
                assert_eq!(data.map.tiles[data.map.xy_idx(x, y)], TileType::Floor);
            }
            assert!(data.map.count_floor_tiles() >= 3440 * floor_percent as usize / 100);
            assert_eq!(data.history.len(), 1);
            assert_eq!(data.history[0].count_floor_tiles(), 0);
            if floor_percent == 0 {
                assert_eq!(data.map.count_floor_tiles(), 5);
            }
        }
    }
}

#[test]
fn tile_digger_stops_where_it_starts_on_a_tile_not_of_its_kind() {
    let mut map = TileMap::with_size(12, 12, 1);
    let before = map.tiles.clone();
    let mut digger = TileDigger::new(5, 5, TileType::Floor);
    let mut rng = rltk::RandomNumberGenerator::seeded(8);
    let prev = digger.stagger(&mut map, &mut rng);
    assert_eq!(prev, (5, 5));
    assert_eq!(digger.get_position(), (5, 5));
    assert_eq!(map.tiles, before);
}

#[test]
fn dla_presets_and_numbers() {
    assert!(algorithm_from(0) == DLAAlgorithm::WalkInwards);
    assert!(algorithm_from(1) == DLAAlgorithm::WalkOutwards);
    assert!(algorithm_from(2) == DLAAlgorithm::CentralAttractor);
    let stage = DLABuilder::new_walk_outwards();
    assert!(stage.algorithm == DLAAlgorithm::WalkOutwards);
    assert_eq!(stage.brush_size, 2);
    let stage = DLABuilder::new_insectoid();
    assert!(stage.symmetry == Symmetry::Horizontal);
    let stage = DLABuilder::preset(2);
    assert_eq!(stage.brush_size, 1);
    let stage = DLABuilder::new();
    assert_eq!(stage.floor_percent, 25);
    let stage = DLABuilder::new_random();
    assert!(stage.brush_size >= 1 && stage.brush_size <= 3);
}

#[test]
fn dla_seed_and_follow() {
    let mut map = TileMap::with_size(12, 12, 1);
    DLABuilder::seed_start(&mut map, 6, 6);
    assert_eq!(map.count_floor_tiles(), 5);
    let path = vec![(3, 6), (4, 6), (5, 6), (6, 6)];
    let prev = DLABuilder::follow(&map, &path, 2, 6);
    assert_eq!(prev, (4, 6));
    let off = vec![(1, 6), (0, 6)];
    assert_eq!(DLABuilder::follow(&map, &off, 2, 6), (2, 6));
}

#[test]
fn dla_attract_walks_the_line_to_the_seed() {
    let mut map = TileMap::with_size(20, 20, 1);
    DLABuilder::seed_start(&mut map, 10, 10);
    assert_eq!(DLABuilder::attract(&map, 3, 10, 10, 10), (8, 10));
    assert_eq!(DLABuilder::attract(&map, 10, 16, 10, 10), (10, 12));
    assert_eq!(DLABuilder::attract(&map, 4, 4, 10, 10), (9, 9));
    assert_eq!(DLABuilder::attract(&map, 16, 4, 10, 10), (11, 9));
    assert_eq!(DLABuilder::attract(&map, 10, 10, 10, 10), (10, 10));
}

#[test]
fn simple_map_rooms_come_in_all_sizes() {
    let mut widths = [false; 4];
    for seed in 0..20 {
        let mut data = BuildData::new(1, false);
        let mut rng = rltk::RandomNumberGenerator::seeded(seed);
        SimpleMapBuilder::new().rooms_and_corridors(&mut rng, &mut data);
        for room in data.rooms.unwrap().iter() {
            let width = room.x2 - room.x1;
            assert!(width >= 6 && width < 10);
            widths[(width - 6) as usize] = true;
        }
    }
    assert!(widths.iter().all(|w| *w));
}

#[test]
fn maze_cells_and_walls() {
    let mut a = Cell::new(2, 3);
    let mut b = Cell::new(2, 4);
    assert_eq!(a.walls, [true, true, true, true]);
    assert!(!a.visited);
    a.remove_walls(&mut b);
    assert_eq!(a.walls, [true, false, true, true]);
    assert_eq!(b.walls, [true, true, true, false]);
    let mut c = Cell::new(1, 3);
    a.remove_walls(&mut c);
    assert_eq!(a.walls, [false, false, true, true]);
    assert_eq!(c.walls, [true, true, false, true]);
    let mut far = Cell::new(7, 7);
    a.remove_walls(&mut far);
    assert_eq!(far.walls, [true, true, true, true]);
}

#[test]
fn maze_grid_neighbours() {
    let mut grid = Grid::new(4, 3);
    assert_eq!(grid.cells.len(), 12);
    assert_eq!(grid.calculate_index(1, 2), 6);
    assert_eq!(grid.calculate_index(-1, 2), -1);
    assert_eq!(grid.calculate_index(1, 4), -1);
    assert_eq!(grid.calculate_index(3, 0), -1);
    assert_eq!(grid.get_available_neighbors(), vec![1, 4]);
    grid.current = 5;
    assert_eq!(grid.get_available_neighbors(), vec![1, 6, 9, 4]);
    grid.cells[6].visited = true;
    assert_eq!(grid.get_available_neighbors(), vec![1, 9, 4]);
    let mut rng = rltk::RandomNumberGenerator::seeded(3);
    let next = grid.find_next_cell(&mut rng).unwrap();
    assert!(next == 1 || next == 9 || next == 4);
}

#[test]
fn maze_is_a_spanning_tree_of_its_cells() {
    for seed in [1, 77, 2024] {
        let mut data = BuildData::new(1, false);
        let mut rng = rltk::RandomNumberGenerator::seeded(seed);
        MazeBuilder::new().build(&mut rng, &mut data);
        // 38 by 19 cells and one link less than cells.
        let mut links = 0;
        for y in 0..43 {
            for x in 0..80 {
                let cell = x >= 2 && x <= 76 && y >= 2 && y <= 38 && x % 2 == 0 && y % 2 == 0;
                if data.map.tiles[data.map.xy_idx(x, y)] == TileType::Floor && !cell {
                    assert!((x % 2 == 0) != (y % 2 == 0));
                    links += 1;
                }
            }
        }
        assert_eq!(links, 38 * 19 - 1);
        data.map.populate_blocked();
        let distances = flood_fill(&data.map, &vec![data.map.xy_idx(2, 2)], 0x7fff_ffff);
        for (i, tile) in data.map.tiles.iter().enumerate() {
            if *tile == TileType::Floor {
                assert!(distances[i] != UNREACHED);
            }
        }
    }
}

#[test]
fn maze_grid_is_a_tree_after_the_walk() {
    let mut data = BuildData::new(1, false);
    let mut grid = Grid::new(6, 5);
    let mut rng = rltk::RandomNumberGenerator::seeded(5);
    grid.generate_maze(&mut rng, &mut data);
    assert!(grid.cells.iter().all(|c| c.visited));
    let mut links = 0;
    for (k, cell) in grid.cells.iter().enumerate() {
        if !cell.walls[1] {
            assert!(k % 6 < 5);
            assert!(!grid.cells[k + 1].walls[3]);
            links += 1;
        }
        if !cell.walls[2] {
            assert!(k + 6 < 30);
            assert!(!grid.cells[k + 6].walls[0]);
            links += 1;
        }
    }
    assert_eq!(links, 29);
}

#[test]
fn maze_reaches_every_cell() {
    let mut data = BuildData::new(1, false);
    let mut rng = rltk::RandomNumberGenerator::seeded(77);
    MazeBuilder::new().build(&mut rng, &mut data);
    assert!(closed(&data.map));
    assert_eq!(count(&data.map, TileType::DownStairs), 0);
    data.map.populate_blocked();
    let distances = flood_fill(&data.map, &vec![data.map.xy_idx(2, 2)], 0x7fff_ffff);
    for row in 0..19 {
        for col in 0..38 {
            let idx = data.map.xy_idx((col + 1) * 2, (row + 1) * 2);
            assert_eq!(data.map.tiles[idx], TileType::Floor);
            assert!(distances[idx] != UNREACHED);
        }
    }
    assert_eq!(data.map.count_floor_tiles(), 38 * 19 * 2 - 1);
}

#[test]
fn voronoi_membership_is_the_nearest_seed() {
    let mut rng = rltk::RandomNumberGenerator::seeded(6);
    let diagram = VoronoiDiagram::new(30, 20, DistanceAlgorithm::Manhattan, 8, &mut rng);
    assert_eq!(diagram.seeds.len(), 8);
    assert_eq!(diagram.membership.len(), 600);
    for y in 0..20 {
        for x in 0..30 {
            let here = Position::new(x, y);
            let mut best = 0;
            for (s, seed) in diagram.seeds.iter().enumerate() {
                if DistanceAlgorithm::Manhattan.apply(here, seed.1)
                    < DistanceAlgorithm::Manhattan.apply(here, diagram.seeds[best].1)
                {
                    best = s;
                }
            }
            assert_eq!(diagram.membership[(y * 30 + x) as usize], best as i32);
        }
    }
    for (i, seed) in diagram.seeds.iter().enumerate() {
        assert_eq!(seed.0, (seed.1.y * 30 + seed.1.x) as usize);
        assert_eq!(diagram.membership[seed.0], i as i32);
    }
}

#[test]
fn voronoi_builders_carve_inside() {
    for stage in [VoronoiBuilder::new(), VoronoiBuilder::manhattan(64), VoronoiBuilder::chebyshev(32), VoronoiBuilder::pythagoras(16)] {
        let mut stage = stage;
        let mut data = BuildData::new(1, false);
        let mut rng = rltk::RandomNumberGenerator::seeded(12);
        let diagram = stage.build(&mut rng, &mut data);
        assert!(diagram.seeds.len() <= stage.n_seeds);
        assert!(closed(&data.map));
        assert!(data.map.count_floor_tiles() > 0);
        for y in 1..42 {
            for x in 1..79 {
                let idx = data.map.xy_idx(x, y);
                let seed = diagram.membership[idx];
                let floor = diagram.neighbors(x, y, seed) < 2;
                assert_eq!(data.map.tiles[idx] == TileType::Floor, floor);
            }
        }
    }
}

#[test]
fn stages_refuse_maps_that_are_too_small() {
    let mut rng = rltk::RandomNumberGenerator::seeded(1);
    let mut data = fresh(5, 5);
    assert!(BspDungeonBuilder::new(1).build_map(&mut rng, &mut data) == Err(BuildError::MapTooSmall));
    assert!(MazeBuilder::new().build_map(&mut rng, &mut data) == Err(BuildError::MapTooSmall));
    let mut data = fresh(3, 3);
    assert!(BspInteriorBuilder::new(1).build_map(&mut rng, &mut data) == Err(BuildError::MapTooSmall));
    assert!(DrunkardsWalkBuilder::open_area().build_map(&mut rng, &mut data) == Err(BuildError::MapTooSmall));
    assert!(DLABuilder::new_walk_inwards().build_map(&mut rng, &mut data) == Err(BuildError::MapTooSmall));
    let mut greedy = DrunkardsWalkBuilder::open_area();
    greedy.settings.floor_percent = 101;
    let mut data = fresh(20, 20);
    assert!(greedy.build_map(&mut rng, &mut data) == Err(BuildError::BadSettings));
    let mut greedy = DLABuilder::new_walk_inwards();
    greedy.floor_percent = 200;
    assert!(greedy.build_map(&mut rng, &mut data) == Err(BuildError::BadSettings));
    assert_eq!(data.map.count_floor_tiles(), 0);
    let mut data = fresh(1, 1);
    assert!(VoronoiBuilder::new().build_map(&mut rng, &mut data) == Err(BuildError::MapTooSmall));
    assert!(data.map.tiles[0] == TileType::Wall);
}

#[test]
fn no_seed_is_placed_where_none_is_asked_for() {
    let mut rng = rltk::RandomNumberGenerator::seeded(6);
    let diagram = VoronoiDiagram::new(30, 20, DistanceAlgorithm::Manhattan, 0, &mut rng);
    assert!(diagram.seeds.is_empty());
    assert!(diagram.membership.iter().all(|m| *m == 0));
}

#[test]
fn seeds_lie_apart_and_off_the_first_row_and_column() {
    let mut rng = rltk::RandomNumberGenerator::seeded(6);
    let mut diagram = VoronoiDiagram::new(5, 4, DistanceAlgorithm::Manhattan, 3, &mut rng);
    assert_eq!(diagram.seeds.len(), 3);
    let first = diagram.seeds.clone();
    diagram.populate_seeds(12, &mut rng);
    assert_eq!(diagram.seeds.len(), 12);
    assert!(diagram.seeds[..3].to_vec() == first);
    for (i, seed) in diagram.seeds.iter().enumerate() {
        assert!(seed.1.x >= 1 && seed.1.x <= 4 && seed.1.y >= 1 && seed.1.y <= 3);
        assert_eq!(seed.0, (seed.1.y * 5 + seed.1.x) as usize);
        for other in diagram.seeds.iter().skip(i + 1) {
            assert!(seed.0 != other.0);
        }
    }
}

#[test]
fn drunkards_that_want_no_floor_open_the_middle_only() {
    let settings = DrunkardSettings {
        spawn_mode: DrunkSpawnMode::Random,
        lifespan: 50,
        floor_percent: 0,
        brush_size: 1,
        symmetry: Symmetry::NoSymmetry,
    };
    let mut stage = DrunkardsWalkBuilder::new(settings);
    let mut data = BuildData::new(1, true);
    let mut rng = rltk::RandomNumberGenerator::seeded(3);
    assert!(stage.build(&mut rng, &mut data));
    assert_eq!(data.map.count_floor_tiles(), 1);
    assert_eq!(data.map.tiles[data.map.xy_idx(40, 21)], TileType::Floor);
    assert!(data.history.is_empty());
}

#[test]
fn one_drunkard_digs_no_more_than_it_has_steps() {
    let settings = DrunkardSettings {
        spawn_mode: DrunkSpawnMode::StartingPoint,
        lifespan: 5,
        floor_percent: 1,
        brush_size: 1,
        symmetry: Symmetry::NoSymmetry,
    };
    let mut digger = DrunkDigger::new(10, 10, settings);
    let mut map = TileMap::with_size(20, 20, 1);
    let mut rng = rltk::RandomNumberGenerator::seeded(3);
    digger.stagger(&mut map, &mut rng);
    let marked = count(&map, TileType::DownStairs) + count(&map, TileType::Floor);
    assert!(marked >= 1 && marked <= 5);
    assert_eq!(map.tiles[map.xy_idx(10, 10)], TileType::DownStairs);
    for (i, tile) in map.tiles.iter().enumerate() {
        if *tile != TileType::Wall {
            let x = (i % 20) as i32;
            let y = (i / 20) as i32;
            assert!((x - 10).abs() + (y - 10).abs() <= 4);
        }
    }
}

#[test]
fn stages_record_their_steps() {
    let mut rng = rltk::RandomNumberGenerator::seeded(12);

    let mut data = BuildData::new(1, true);
    CellularAutomataBuilder::new().build(&mut rng, &mut data);
    assert_eq!(data.history.len(), 15);
    assert_eq!(data.history[14].tiles, data.map.tiles);

    let mut data = BuildData::new(1, true);
    SimpleMapBuilder::new().rooms_and_corridors(&mut rng, &mut data);
    let rooms = data.rooms.clone().unwrap();
    assert_eq!(data.history.len(), 2 * rooms.len());
    assert_eq!(data.history[data.history.len() - 1].tiles, data.map.tiles);

    let mut data = BuildData::new(1, true);
    BspDungeonBuilder::new(1).build(&mut rng, &mut data);
    let rooms = data.rooms.clone().unwrap();
    assert!(!rooms.is_empty());
    assert_eq!(data.history.len(), 2 * rooms.len() - 1);
    assert_eq!(data.history[data.history.len() - 1].tiles, data.map.tiles);

    let mut data = BuildData::new(1, true);
    VoronoiBuilder::new().build(&mut rng, &mut data);
    assert_eq!(data.history.len(), 41);
    assert_eq!(data.history[40].tiles, data.map.tiles);

    let mut data = BuildData::new(1, true);
    MazeBuilder::new().build(&mut rng, &mut data);
    assert_eq!(data.history[data.history.len() - 1].tiles, data.map.tiles);

    let mut data = BuildData::new(1, false);
    CellularAutomataBuilder::new().build(&mut rng, &mut data);
    assert!(data.history.is_empty());
}

