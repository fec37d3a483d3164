use dungeon_builder::build_data::{BuildData, BuildError};
use dungeon_builder::chain::MetaMapBuilder;
use dungeon_builder::cellular_automata::CellularAutomataBuilder;
use dungeon_builder::position::Position;
use dungeon_builder::simple_map::SimpleMapBuilder;
use dungeon_builder::tile_map::{TileMap, TileType};
use dungeon_builder::waveform_collapse::common::{tile_idx_in_chunks, Direction, MapChunk};
use dungeon_builder::waveform_collapse::constraints::{
    build_patterns, copy_tiles, patterns_to_constraints, render_pattern_to_map, BuildPattern, Chunk,
};
use dungeon_builder::waveform_collapse::solver::{holds, Solver};
use dungeon_builder::waveform_collapse::{WaveformCollapseBuilder, CHUNK_SIZE};

const W: TileType = TileType::Wall;
const F: TileType = TileType::Floor;

fn small_map() -> TileMap {
    // Two chunks of 3 by 3 side by side on a map 7 wide and 4 high.
    let rows = [
        [W, F, W, F, F, F, W],
        [F, F, W, W, W, W, W],
        [W, W, W, W, F, W, W],
        [W, W, W, W, W, W, W],
    ];
    let mut map = TileMap::with_size(7, 4, 1);
    for (y, row) in rows.iter().enumerate() {
        for (x, tile) in row.iter().enumerate() {
            let idx = map.xy_idx(x as i32, y as i32);
            map.tiles[idx] = *tile;
        }
    }
    map
}

fn cave_map(seed: u64) -> TileMap {
    let mut data = BuildData::new(1, false);
    let mut rng = rltk::RandomNumberGenerator::seeded(seed);
    CellularAutomataBuilder::new().build(&mut rng, &mut data);
    data.map
}

fn room_map(seed: u64) -> TileMap {
    let mut data = BuildData::new(1, false);
    let mut rng = rltk::RandomNumberGenerator::seeded(seed);
    SimpleMapBuilder::new().rooms_and_corridors(&mut rng, &mut data);
    data.map
}

#[test]
fn tile_indices_in_chunks() {
    assert_eq!(tile_idx_in_chunks(7, 0, 0), 0);
    assert_eq!(tile_idx_in_chunks(7, 3, 2), 17);
    assert_eq!(tile_idx_in_chunks(7, 6, 6), 48);
}

#[test]
fn direction_indices() {
    assert_eq!(Direction::North.get_index(7, 3), 3);
    assert_eq!(Direction::South.get_index(7, 3), 45);
    assert_eq!(Direction::West.get_index(7, 3), 21);
    assert_eq!(Direction::East.get_index(7, 3), 27);
    assert_eq!(Direction::get_indices(7, 3), vec![3, 45, 27, 21]);
    assert!(Direction::iterator() == vec![Direction::North, Direction::South, Direction::East, Direction::West]);
    assert!(Direction::North.opposite() == Direction::South);
    assert!(Direction::South.opposite() == Direction::North);
    assert!(Direction::West.opposite() == Direction::East);
    assert!(Direction::East.opposite() == Direction::West);
    assert_eq!(Direction::North.ordinal(), 0);
    assert_eq!(Direction::South.ordinal(), 1);
    assert_eq!(Direction::West.ordinal(), 2);
    assert_eq!(Direction::East.ordinal(), 3);
}

#[test]
fn direction_map_indices() {
    let map = TileMap::new(1);
    let chunk = Chunk::new(7, 2, 1);
    assert_eq!((chunk.start.x, chunk.start.y, chunk.end.x, chunk.end.y), (14, 7, 21, 14));
    assert_eq!(Direction::North.map_index(&map, &chunk, 3), 7 * 80 + 17);
    assert_eq!(Direction::South.map_index(&map, &chunk, 3), 13 * 80 + 17);
    assert_eq!(Direction::West.map_index(&map, &chunk, 3), 10 * 80 + 14);
    assert_eq!(Direction::East.map_index(&map, &chunk, 3), 10 * 80 + 20);
}

#[test]
fn chunk_positions_row_by_row() {
    let chunk = Chunk::presized(2, Position::new(3, 5));
    assert_eq!((chunk.end.x, chunk.end.y), (5, 7));
    let cells: Vec<(i32, i32)> = chunk.positions().iter().map(|p| (p.x, p.y)).collect();
    assert_eq!(cells, vec![(3, 5), (4, 5), (3, 6), (4, 6)]);
}

#[test]
fn patterns_and_their_flips() {
    let map = small_map();
    let plain = build_patterns(&map, 3, false, false);
    assert_eq!(plain, vec![vec![W, F, W, F, F, W, W, W, W], vec![F, F, F, W, W, W, W, F, W]]);
    let flipped = build_patterns(&map, 3, true, false);
    assert_eq!(flipped.len(), 8);
    assert_eq!(flipped[0], vec![W, F, W, F, F, W, W, W, W]);
    assert_eq!(flipped[1], vec![W, F, W, W, F, F, W, W, W]);
    assert_eq!(flipped[2], vec![W, W, W, F, F, W, W, F, W]);
    assert_eq!(flipped[3], vec![W, W, W, W, F, F, W, F, W]);
    assert_eq!(flipped[4], vec![F, F, F, W, W, W, W, F, W]);
    assert_eq!(flipped[5], vec![F, F, F, W, W, W, W, F, W]);
    assert_eq!(flipped[6], vec![W, F, W, W, W, W, F, F, F]);
    assert_eq!(flipped[7], vec![W, F, W, W, W, W, F, F, F]);
    let deduped = build_patterns(&map, 3, true, true);
    assert_eq!(deduped.len(), 6);
    assert_eq!(deduped[4], flipped[4]);
    assert_eq!(deduped[5], flipped[6]);
    assert!(build_patterns(&map, 5, true, true).is_empty());
}

#[test]
fn build_pattern_reads_and_flips() {
    let map = small_map();
    let mut pattern = BuildPattern::new(Chunk::new(3, 1, 0));
    pattern.add_tile(W);
    pattern.add_tiles(&map);
    assert_eq!(pattern.pattern(), vec![W, F, F, F, W, W, W, W, F, W]);
    assert_eq!(pattern.flip_both(&map).pattern(), vec![W, F, W, W, W, W, F, F, F]);
    assert_eq!(pattern.flip_horizontal(&map).pattern(), vec![F, F, F, W, W, W, W, F, W]);
    assert_eq!(pattern.flip_vertical(&map).pattern(), vec![W, F, W, W, W, W, F, F, F]);
    assert_eq!(copy_tiles(&vec![W, F]), vec![W, F]);
}

#[test]
fn constraints_of_three_patterns() {
    let solid = vec![W; 9];
    let cross = vec![W, F, W, F, F, F, W, F, W];
    let elbow = vec![W, W, W, W, F, F, W, F, W];
    let catalog = patterns_to_constraints(vec![solid.clone(), cross.clone(), elbow.clone()], 3);
    assert_eq!(catalog.len(), 3);
    assert_eq!(catalog[0].pattern, solid);
    assert!(!catalog[0].has_exits);
    assert!(catalog[1].has_exits);
    assert!(catalog[2].has_exits);
    let middle = vec![false, true, false];
    let none = vec![false, false, false];
    assert_eq!(catalog[1].exits, [middle.clone(), middle.clone(), middle.clone(), middle.clone()]);
    assert_eq!(catalog[2].exits, [none.clone(), middle.clone(), none.clone(), middle.clone()]);
    for side in 0..4 {
        assert_eq!(catalog[0].compatible_with[side], vec![0, 1, 2]);
    }
    // North of the cross a pattern must have an exit on its south.
    assert_eq!(catalog[1].compatible_with[0], vec![0, 1, 2]);
    // South of the cross a pattern must have an exit on its north.
    assert_eq!(catalog[1].compatible_with[1], vec![0, 1]);
    // West of the cross a pattern must have an exit on its east.
    assert_eq!(catalog[1].compatible_with[2], vec![0, 1, 2]);
    // East of the cross a pattern must have an exit on its west.
    assert_eq!(catalog[1].compatible_with[3], vec![0, 1]);
    assert_eq!(catalog[2].compatible_with[0], vec![0]);
    assert_eq!(catalog[2].compatible_with[1], vec![0, 1]);
    assert_eq!(catalog[2].compatible_with[2], vec![0]);
    assert_eq!(catalog[2].compatible_with[3], vec![0, 1]);
}

#[test]
fn pattern_is_drawn_with_its_exits_marked() {
    let cross = vec![W, F, W, F, F, F, W, F, W];
    let catalog = patterns_to_constraints(vec![cross], 3);
    let mut map = TileMap::with_size(6, 6, 0);
    render_pattern_to_map(&mut map, &catalog[0], Chunk::presized(3, Position::new(2, 1)));
    let d = TileType::DownStairs;
    let expected = [[W, d, W], [d, F, d], [W, d, W]];
    for y in 0..6 {
        for x in 0..6 {
            let idx = map.xy_idx(x, y);
            let inside = x >= 2 && x < 5 && y >= 1 && y < 4;
            if inside {
                assert_eq!(map.tiles[idx], expected[(y - 1) as usize][(x - 2) as usize]);
            } else {
                assert_eq!(map.tiles[idx], W);
            }
            assert_eq!(map.visible_tiles[idx], inside);
        }
    }
}

fn conflicts(solver: &Solver, catalog: &Vec<MapChunk>) -> usize {
    let mut found = 0;
    for y in 0..solver.chunks_y {
        for x in 0..solver.chunks_x {
            let here = solver.chunks[y * solver.chunks_x + x];
            if x + 1 < solver.chunks_x {
                let right = solver.chunks[y * solver.chunks_x + x + 1];
                if let (Some(a), Some(b)) = (here, right) {
                    if !holds(&catalog[a].compatible_with[3], b) || !holds(&catalog[b].compatible_with[2], a) {
                        found += 1;
                    }
                }
            }
            if y + 1 < solver.chunks_y {
                let below = solver.chunks[(y + 1) * solver.chunks_x + x];
                if let (Some(a), Some(b)) = (here, below) {
                    if !holds(&catalog[a].compatible_with[1], b) || !holds(&catalog[b].compatible_with[0], a) {
                        found += 1;
                    }
                }
            }
        }
    }
    found
}

#[test]
fn solver_starts_with_nothing_decided() {
    let catalog = patterns_to_constraints(vec![vec![W; 9], vec![W, F, W, F, F, F, W, F, W]], 3);
    let map = TileMap::with_size(10, 7, 1);
    let solver = Solver::new(&catalog, 3, &map);
    assert_eq!(solver.chunks_x, 3);
    assert_eq!(solver.chunks_y, 2);
    assert_eq!(solver.chunks, vec![None; 6]);
    assert_eq!(solver.remaining, vec![(0, 0), (1, 0), (2, 0), (3, 0), (4, 0), (5, 0)]);
    assert!(solver.possible);
    assert_eq!(solver.chunk_idx(2, 1), 5);
    assert_eq!(solver.chunk_xy(5), (2, 1));
    assert_eq!(solver.count_neighbors(1, 1), 0);
}

#[test]
fn solver_counts_and_candidates() {
    let solid = vec![W; 9];
    let cross = vec![W, F, W, F, F, F, W, F, W];
    let elbow = vec![W, W, W, W, F, F, W, F, W];
    let catalog = patterns_to_constraints(vec![solid, cross, elbow], 3);
    let mut map = TileMap::with_size(10, 7, 1);
    let mut solver = Solver::new(&catalog, 3, &map);
    solver.place(&mut map, 1, 2);
    assert_eq!(solver.chunks[1], Some(2));
    assert_eq!(solver.remaining.len(), 5);
    for y in 0..3 {
        for x in 0..3 {
            assert_eq!(map.tiles[map.xy_idx(3 + x, y)], catalog[2].pattern[(y * 3 + x) as usize]);
        }
    }
    assert_eq!(solver.count_neighbors(0, 0), 1);
    assert_eq!(solver.count_neighbors(1, 1), 1);
    assert_eq!(solver.count_neighbors(0, 1), 0);
    // Left of the elbow: the elbow has no exit on its west.
    assert_eq!(solver.candidates(0, 0), vec![0]);
    // Right of the elbow and below it: its exits want an exit facing them.
    assert_eq!(solver.candidates(2, 0), vec![0, 1]);
    assert_eq!(solver.candidates(1, 1), vec![0, 1]);
    assert!(solver.is_allowed(2, 0, 1));
    assert!(!solver.is_allowed(0, 0, 1));
    assert!(solver.is_allowed(0, 1, 2));
    let best = solver.recount();
    assert_eq!(best, Some(0));
    assert_eq!(solver.remaining, vec![(0, 1), (2, 1), (3, 0), (4, 1), (5, 0)]);
}

#[test]
fn solver_gives_up_where_nothing_fits() {
    // The one pattern has an exit on its east and none on its west, so
    // nothing can stand to the right of it.
    let catalog = patterns_to_constraints(vec![vec![W, W, W, W, F, F, W, W, W]], 3);
    assert!(catalog[0].compatible_with[3].is_empty());
    let mut map = TileMap::with_size(6, 3, 1);
    let mut solver = Solver::new(&catalog, 3, &map);
    let mut rng = rltk::RandomNumberGenerator::seeded(1);
    assert!(!solver.iteration(&mut map, &mut rng));
    let done = solver.iteration(&mut map, &mut rng);
    assert!(done);
    assert!(!solver.possible);
    assert_eq!(solver.chunks.iter().filter(|c| c.is_some()).count(), 1);
}

#[test]
fn solver_resolves_every_chunk_without_conflict() {
    let source = room_map(2024);
    let patterns = build_patterns(&source, CHUNK_SIZE, true, true);
    assert!(!patterns.is_empty());
    let catalog = patterns_to_constraints(patterns, CHUNK_SIZE);
    let mut rng = rltk::RandomNumberGenerator::seeded(5);
    let mut solved = false;
    let mut attempts = 0;
    while !solved && attempts < 1000 {
        attempts += 1;
        let mut map = TileMap::new(1);
        let mut solver = Solver::new(&catalog, CHUNK_SIZE, &map);
        assert_eq!(solver.chunks.len(), 66);
        let mut steps = 0;
        while !solver.iteration(&mut map, &mut rng) {
            steps += 1;
            assert_eq!(conflicts(&solver, &catalog), 0);
        }
        if solver.possible {
            solved = true;
            assert_eq!(steps, 66);
            assert!(solver.remaining.is_empty());
            assert_eq!(solver.chunks.iter().filter(|c| c.is_some()).count(), 66);
            assert_eq!(conflicts(&solver, &catalog), 0);
            for cy in 0..6 {
                for cx in 0..11 {
                    let pattern = &catalog[solver.chunks[cy * 11 + cx].unwrap()].pattern;
                    for y in 0..7 {
                        for x in 0..7 {
                            let idx = map.xy_idx((cx * 7 + x) as i32, (cy * 7 + y) as i32);
                            assert_eq!(map.tiles[idx], pattern[y * 7 + x]);
                        }
                    }
                }
            }
        }
    }
    assert!(solved);
}

#[test]
fn solver_is_decided_by_the_seed() {
    let source = cave_map(2024);
    let catalog = patterns_to_constraints(build_patterns(&source, CHUNK_SIZE, true, true), CHUNK_SIZE);
    let mut outcomes = Vec::new();
    for _ in 0..2 {
        let mut rng = rltk::RandomNumberGenerator::seeded(321);
        let mut map = TileMap::new(1);
        let mut solver = Solver::new(&catalog, CHUNK_SIZE, &map);
        let mut steps = 0;
        while !solver.iteration(&mut map, &mut rng) {
            steps += 1;
        }
        outcomes.push((solver.possible, steps, solver.chunks.clone(), map.tiles.clone()));
    }
    assert!(outcomes[0] == outcomes[1]);
}

#[test]
fn waveform_stage_rebuilds_the_map() {
    let mut data = BuildData::new(3, true);
    let mut rng = rltk::RandomNumberGenerator::seeded(2024);
    SimpleMapBuilder::new().rooms_and_corridors(&mut rng, &mut data);
    data.spawn_list.push((100, "Orc".to_string()));
    let source = data.map.tiles.clone();
    let history = data.history.len();
    let solved = WaveformCollapseBuilder::new().build(&mut rng, &mut data);
    assert!(solved.is_some());
    let attempts = solved.unwrap();
    assert!(attempts >= 1 && attempts <= 1000);
    assert_eq!(data.map.width, 80);
    assert_eq!(data.map.height, 43);
    assert_eq!(data.map.depth, 3);
    assert!(data.history.len() > history);
    if attempts == 1 {
        assert_eq!(data.spawn_list.len(), 1);
    } else {
        assert!(data.spawn_list.is_empty());
    }
    let mut source_map = TileMap::new(3);
    source_map.tiles = source;
    let patterns = build_patterns(&source_map, 7, true, true);
    for cy in 0..6 {
        for cx in 0..11 {
            let chunk = Chunk::new(7, cx, cy);
            let mut pattern = BuildPattern::new(chunk);
            pattern.add_tiles(&data.map);
            assert!(patterns.contains(&pattern.pattern()));
        }
    }
    for y in 0..43 {
        for x in 77..80 {
            assert_eq!(data.map.tiles[data.map.xy_idx(x, y)], W);
        }
    }
}

#[test]
fn waveform_stage_gives_up_on_patterns_that_never_fit() {
    // Three regions in a row, each with one exit on its east: whatever stands
    // in the middle has a neighbour that it does not fit.
    let mut data = BuildData {
        spawn_list: vec![(3, "Orc".to_string())],
        map: TileMap::with_size(21, 7, 1),
        start: None,
        rooms: None,
        history: Vec::new(),
        record_history: false,
    };
    for chunk in 0..3 {
        for x in 3..7 {
            let idx = data.map.xy_idx(chunk * 7 + x, 3);
            data.map.tiles[idx] = F;
        }
    }
    let before = data.map.tiles.clone();
    let mut rng = rltk::RandomNumberGenerator::seeded(4);
    let mut stage = WaveformCollapseBuilder::new();
    assert_eq!(stage.build(&mut rng, &mut data), None);
    assert_eq!(data.map.tiles, before);
    assert_eq!(data.spawn_list.len(), 1);
    assert!(stage.build_map(&mut rng, &mut data) == Err(BuildError::Unsolvable));
    assert_eq!(data.map.tiles, before);
}

#[test]
fn waveform_stage_on_a_map_without_regions() {
    let mut data = BuildData {
        spawn_list: Vec::new(),
        map: TileMap::with_size(6, 20, 1),
        start: None,
        rooms: None,
        history: Vec::new(),
        record_history: false,
    };
    let idx = data.map.xy_idx(2, 2);
    data.map.tiles[idx] = F;
    let mut rng = rltk::RandomNumberGenerator::seeded(4);
    assert_eq!(WaveformCollapseBuilder::new().build(&mut rng, &mut data), Some(1));
    assert_eq!(data.map.count_floor_tiles(), 0);
    assert_eq!((data.map.width, data.map.height), (6, 20));
}

#[test]
fn gallery_of_an_empty_catalog_is_one_blank_page() {
    let mut data = BuildData {
        spawn_list: Vec::new(),
        map: TileMap::with_size(6, 20, 4),
        start: None,
        rooms: None,
        history: Vec::new(),
        record_history: true,
    };
    let mut rng = rltk::RandomNumberGenerator::seeded(4);
    assert_eq!(WaveformCollapseBuilder::new().build(&mut rng, &mut data), Some(1));
    assert_eq!(data.history.len(), 1);
    assert_eq!((data.history[0].width, data.history[0].height), (6, 20));
    assert_eq!(data.history[0].depth, 0);
    assert!(data.history[0].tiles.iter().all(|t| *t == W));
    assert!(data.history[0].revealed_tiles.iter().all(|r| *r));
}

#[test]
fn gallery_shows_each_entry_and_each_page() {
    // A page of 16 by 8 has room for two entries side by side. Each entry
    // is shown once it is drawn, each full page once more, and the page in
    // work at the end.
    let mut data = BuildData {
        spawn_list: Vec::new(),
        map: TileMap::with_size(16, 8, 1),
        start: None,
        rooms: None,
        history: Vec::new(),
        record_history: true,
    };
    let idx = data.map.xy_idx(1, 2);
    data.map.tiles[idx] = F;
    let patterns = build_patterns(&data.map, CHUNK_SIZE, true, true);
    let catalog = patterns_to_constraints(patterns, CHUNK_SIZE);
    let entries = catalog.len();
    assert_eq!(entries, 5);
    let mut rng = rltk::RandomNumberGenerator::seeded(4);
    let solved = WaveformCollapseBuilder::new().build(&mut rng, &mut data);
    let gallery = entries + entries / 2 + 1;
    assert!(data.history.len() >= gallery);
    for page in data.history.iter().take(gallery) {
        assert_eq!(page.depth, 0);
        assert_eq!(page.tiles.len(), 128);
        assert!(page.revealed_tiles.iter().all(|r| *r));
    }
    let mut first = TileMap::with_size(16, 8, 0);
    render_pattern_to_map(&mut first, &catalog[0], Chunk::presized(7, Position::new(1, 1)));
    assert_eq!(data.history[0].tiles, first.tiles);
    render_pattern_to_map(&mut first, &catalog[1], Chunk::presized(7, Position::new(9, 1)));
    assert_eq!(data.history[1].tiles, first.tiles);
    assert_eq!(data.history[2].tiles, first.tiles);
    let mut last = TileMap::with_size(16, 8, 0);
    render_pattern_to_map(&mut last, &catalog[4], Chunk::presized(7, Position::new(1, 1)));
    assert_eq!(data.history[6].tiles, last.tiles);
    assert_eq!(data.history[7].tiles, last.tiles);
    assert!(solved.is_some() || data.map.tiles[idx] == F);
}

#[test]
fn solver_places_a_pattern_that_fits_itself_on_every_region() {
    // One pattern, all floor: it may lie on every side of itself, so no
    // step can fail. Two regions of 40 by 40 on a map of 80 by 43.
    let catalog = patterns_to_constraints(vec![vec![F; 1600]], 40);
    assert_eq!(catalog.len(), 1);
    for side in 0..4 {
        assert_eq!(catalog[0].compatible_with[side], vec![0]);
    }
    let mut map = TileMap::new(1);
    let mut solver = Solver::new(&catalog, 40, &map);
    let mut rng = rltk::RandomNumberGenerator::seeded(1);
    assert!(!solver.iteration(&mut map, &mut rng));
    assert_eq!(solver.remaining.len(), 1);
    assert!(!solver.iteration(&mut map, &mut rng));
    assert!(solver.remaining.is_empty());
    assert!(solver.iteration(&mut map, &mut rng));
    assert!(solver.possible);
    assert_eq!(solver.chunks, vec![Some(0), Some(0)]);
    for y in 0..43 {
        for x in 0..80 {
            let expected = if y < 40 { F } else { W };
            assert_eq!(map.tiles[map.xy_idx(x, y)], expected);
        }
    }
    assert_eq!(map.count_floor_tiles(), 3200);
}

#[test]
fn solver_takes_the_first_region_with_the_most_decided_neighbours() {
    let solid = vec![W; 9];
    let catalog = patterns_to_constraints(vec![solid], 3);
    let mut map = TileMap::with_size(9, 9, 1);
    let mut solver = Solver::new(&catalog, 3, &map);
    solver.place(&mut map, 4, 0);
    solver.place(&mut map, 0, 0);
    // Regions 1 and 3 have two decided neighbours each, the others one or
    // none: the step takes region 1.
    let mut rng = rltk::RandomNumberGenerator::seeded(9);
    assert!(!solver.iteration(&mut map, &mut rng));
    assert_eq!(solver.chunks[1], Some(0));
    assert_eq!(solver.chunks[3], None);
    let listed: Vec<usize> = solver.remaining.iter().map(|r| r.0).collect();
    assert_eq!(listed, vec![2, 3, 5, 6, 7, 8]);
}

#[test]
fn waveform_stage_cannot_fail_where_a_pattern_has_no_exits() {
    // A source with a region of walls only: that pattern fits beside any
    // other, so the first solve succeeds whatever the dice say.
    for seed in 0..5 {
        let mut data = BuildData::new(2, false);
        let mut rng = rltk::RandomNumberGenerator::seeded(seed);
        SimpleMapBuilder::new().rooms_and_corridors(&mut rng, &mut data);
        for y in 0..7 {
            for x in 0..7 {
                let idx = data.map.xy_idx(x, y);
                data.map.tiles[idx] = W;
            }
        }
        let patterns = build_patterns(&data.map, CHUNK_SIZE, true, true);
        assert!(patterns.contains(&vec![W; 49]));
        assert_eq!(WaveformCollapseBuilder::new().build(&mut rng, &mut data), Some(1));
    }
    let mut data = BuildData::new(2, false);
    let mut rng = rltk::RandomNumberGenerator::seeded(11);
    assert_eq!(WaveformCollapseBuilder::new().build(&mut rng, &mut data), Some(1));
    assert_eq!(data.map.count_floor_tiles(), 0);
}

