use dungeon_builder::build_data::BuildError;
use dungeon_builder::cellular_automata::CellularAutomataBuilder;
use dungeon_builder::chain::{
    build_cave_level, random_builder, BuilderChain, BuilderChains, InitialStage, MetaStage,
};
use dungeon_builder::common::{CullUnreachable, DistantExit};
use dungeon_builder::flood::{flood_fill, DEFAULT_FLOOD_DEPTH, UNREACHED};
use dungeon_builder::room_based_gen::RoomBasedStairs;
use dungeon_builder::tile_map::{TileMap, TileType};

fn labels() -> Vec<i32> {
    (0..3440).map(|i| ((i % 80) / 8 + 10 * ((i / 80) / 8)) as i32).collect()
}

fn closed(map: &TileMap) -> bool {
    for y in 0..map.height {
        for x in 0..map.width {
            if x == 0 || y == 0 || x == map.width - 1 || y == map.height - 1 {
                if map.tiles[map.xy_idx(x, y)] != TileType::Wall {
                    return false;
                }
            }
        }
    }
    true
}

fn check_level(chain: &BuilderChain) {
    let data = &chain.build_data;
    assert_eq!(data.map.tiles.len(), 3440);
    assert!(closed(&data.map));
    let stairs: Vec<usize> = data
        .map
        .tiles
        .iter()
        .enumerate()
        .filter(|(_, t)| **t == TileType::DownStairs)
        .map(|(i, _)| i)
        .collect();
    assert_eq!(stairs.len(), 1);
    let start = data.start.unwrap();
    let start_idx = data.map.xy_idx(start.x, start.y);
    assert!(data.map.tiles[start_idx] != TileType::Wall);
    let mut map = TileMap::new(1);
    map.tiles = data.map.tiles.clone();
    map.populate_blocked();
    let distances = flood_fill(&map, &vec![start_idx], DEFAULT_FLOOD_DEPTH);
    assert!(distances[stairs[0]] != UNREACHED);
    for (i, spawn) in data.spawn_list.iter().enumerate() {
        assert!(data.map.tiles[spawn.0] != TileType::Wall);
        for other in data.spawn_list.iter().skip(i + 1) {
            assert!(other.0 != spawn.0);
        }
    }
}

#[test]
fn chain_is_assembled_in_order() {
    let chain = BuilderChain::new(4);
    assert!(chain.starter.is_none());
    assert!(chain.builders.is_empty());
    assert_eq!(chain.build_data.map.depth, 4);
    assert!(chain.build_data.record_history);
    let chain = chain
        .start_with(InitialStage::CellularAutomata(CellularAutomataBuilder::new()))
        .with(MetaStage::CullUnreachable(CullUnreachable::new()))
        .with(MetaStage::DistantExit(DistantExit::new()));
    assert!(matches!(chain.starter, Some(InitialStage::CellularAutomata(_))));
    assert_eq!(chain.builders.len(), 2);
    assert!(matches!(chain.builders[0], MetaStage::CullUnreachable(_)));
    assert!(matches!(chain.builders[1], MetaStage::DistantExit(_)));
}

#[test]
fn chain_stops_at_the_stage_that_refuses() {
    let mut chain = BuilderChain::new(1)
        .start_with(InitialStage::CellularAutomata(CellularAutomataBuilder::new()))
        .with(MetaStage::RoomBasedStairs(RoomBasedStairs::new()))
        .with(MetaStage::DistantExit(DistantExit::new()));
    let mut rng = rltk::RandomNumberGenerator::seeded(3);
    assert!(chain.build_map(&mut rng) == Err(BuildError::NoRooms));
    assert!(chain.build_data.map.count_floor_tiles() > 0);
    assert!(chain.build_data.map.tiles.iter().all(|t| *t != TileType::DownStairs));

    let mut chain = BuilderChain::new(1)
        .start_with(InitialStage::CellularAutomata(CellularAutomataBuilder::new()))
        .with(MetaStage::CullUnreachable(CullUnreachable::new()));
    assert!(chain.build_map(&mut rng) == Err(BuildError::NoStartingPosition));
}

#[test]
fn known_chains_have_their_stages() {
    let chain = BuilderChains::SimpleMap.match_builder(2, Vec::new());
    assert!(matches!(chain.starter, Some(InitialStage::SimpleMap(_))));
    assert_eq!(chain.builders.len(), 3);
    assert!(matches!(chain.builders[0], MetaStage::RoomBasedSpawner(_)));
    assert!(matches!(chain.builders[1], MetaStage::RoomBasedStartingPosition(_)));
    assert!(matches!(chain.builders[2], MetaStage::RoomBasedStairs(_)));
    let chain = BuilderChains::Maze.match_builder(2, vec![1, 2, 3]);
    assert!(matches!(chain.starter, Some(InitialStage::Maze(_))));
    assert_eq!(chain.builders.len(), 4);
    assert!(matches!(chain.builders[0], MetaStage::AreaStartingPosition(_)));
    assert!(matches!(chain.builders[1], MetaStage::CullUnreachable(_)));
    match &chain.builders[2] {
        MetaStage::VoronoiSpawning(stage) => assert_eq!(stage.noise, vec![1, 2, 3]),
        _ => panic!("the third stage spawns by regions"),
    }
    assert!(matches!(chain.builders[3], MetaStage::DistantExit(_)));
    let chain = BuilderChains::Prefab.match_builder(2, Vec::new());
    assert!(matches!(chain.starter, Some(InitialStage::Voronoi(_))));
    assert_eq!(chain.builders.len(), 7);
    assert!(matches!(chain.builders[0], MetaStage::WaveformCollapse(_)));
    assert!(matches!(chain.builders[1], MetaStage::Prefab(_)));
    assert!(matches!(chain.builders[5], MetaStage::Prefab(_)));
    assert!(matches!(chain.builders[6], MetaStage::DistantExit(_)));
    assert_eq!(chain.build_data.map.depth, 2);
}

#[test]
fn chains_without_rooms_build_valid_levels() {
    for (n, kind) in [
        BuilderChains::CellularAutomata,
        BuilderChains::DrunkardsWalk,
        BuilderChains::DiffusionLimitedAggregation,
        BuilderChains::Maze,
        BuilderChains::Voronoi,
    ]
    .iter()
    .enumerate()
    {
        let mut chain = kind.match_builder(3, labels());
        let mut rng = rltk::RandomNumberGenerator::seeded(100 + n as u64);
        assert!(chain.build_map(&mut rng) == Ok(()));
        check_level(&chain);
        let start = chain.build_data.start.unwrap();
        let start_idx = chain.build_data.map.xy_idx(start.x, start.y);
        let mut map = TileMap::new(1);
        map.tiles = chain.build_data.map.tiles.clone();
        map.populate_blocked();
        let distances = flood_fill(&map, &vec![start_idx], DEFAULT_FLOOD_DEPTH);
        let exit = map.tiles.iter().position(|t| *t == TileType::DownStairs).unwrap();
        for (i, tile) in map.tiles.iter().enumerate() {
            if *tile == TileType::Floor {
                assert!(distances[i] != UNREACHED);
                assert!(distances[i] <= distances[exit]);
            }
        }
        assert!(!chain.build_data.history.is_empty());
    }
}

#[test]
fn chains_with_rooms_build_valid_levels() {
    for (n, kind) in [BuilderChains::SimpleMap, BuilderChains::BspDungeon, BuilderChains::BspInterior]
        .iter()
        .enumerate()
    {
        let mut chain = kind.match_builder(6, Vec::new());
        let mut rng = rltk::RandomNumberGenerator::seeded(200 + n as u64);
        assert!(chain.build_map(&mut rng) == Ok(()));
        check_level(&chain);
        let rooms = chain.build_data.rooms.clone().unwrap();
        let start = chain.build_data.start.unwrap();
        assert_eq!((start.x, start.y), rooms[0].center());
        let last = rooms[rooms.len() - 1].center();
        let idx = chain.build_data.map.xy_idx(last.0, last.1);
        assert_eq!(chain.build_data.map.tiles[idx], TileType::DownStairs);
    }
}

#[test]
fn prefab_chain_builds_or_gives_up() {
    let mut chain = BuilderChains::Prefab.match_builder(3, labels());
    let mut rng = rltk::RandomNumberGenerator::seeded(300);
    let result = chain.build_map(&mut rng);
    assert!(result == Ok(()) || result == Err(BuildError::Unsolvable));
    if result == Ok(()) {
        let stairs = chain.build_data.map.tiles.iter().filter(|t| **t == TileType::DownStairs).count();
        assert_eq!(stairs, 1);
    }
}

#[test]
fn random_builder_makes_caves() {
    let mut rng = rltk::RandomNumberGenerator::seeded(9);
    let mut chain = random_builder(5, &mut rng, labels());
    assert!(matches!(chain.starter, Some(InitialStage::CellularAutomata(_))));
    assert!(chain.build_map(&mut rng) == Ok(()));
    check_level(&chain);
    assert_eq!(chain.build_data.map.depth, 5);
}

#[test]
fn cave_level_is_fit_to_be_played() {
    for seed in 0..5 {
        let mut rng = rltk::RandomNumberGenerator::seeded(seed);
        let data = build_cave_level(2, &mut rng, labels()).unwrap();
        assert_eq!(data.map.depth, 2);
        assert!(data.rooms.is_none());
        let chain = BuilderChain { starter: None, builders: Vec::new(), build_data: data };
        check_level(&chain);
        let data = &chain.build_data;
        let start = data.start.unwrap();
        let start_idx = data.map.xy_idx(start.x, start.y);
        let distances = flood_fill(&data.map, &vec![start_idx], DEFAULT_FLOOD_DEPTH);
        let exit = data.map.tiles.iter().position(|t| *t == TileType::DownStairs).unwrap();
        for (i, tile) in data.map.tiles.iter().enumerate() {
            if *tile == TileType::Floor {
                assert!(distances[i] != UNREACHED);
                assert!(distances[i] <= distances[exit]);
            }
        }
    }
}

#[test]
fn chain_records_its_history_or_not() {
    let mut quiet = BuilderChain::recording(1, false)
        .start_with(InitialStage::CellularAutomata(CellularAutomataBuilder::new()));
    let mut rng = rltk::RandomNumberGenerator::seeded(3);
    assert!(quiet.build_map(&mut rng) == Ok(()));
    assert!(quiet.build_data.history.is_empty());
    let mut loud = BuilderChain::recording(1, true)
        .start_with(InitialStage::CellularAutomata(CellularAutomataBuilder::new()));
    let mut rng = rltk::RandomNumberGenerator::seeded(3);
    assert!(loud.build_map(&mut rng) == Ok(()));
    assert_eq!(loud.build_data.history.len(), 15);
    assert_eq!(loud.build_data.map.tiles, quiet.build_data.map.tiles);
}
