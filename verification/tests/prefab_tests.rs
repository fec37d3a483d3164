use std::collections::HashSet;
use dungeon_builder::build_data::{BuildData, BuildError};
use dungeon_builder::chain::{InitialMapBuilder, MetaMapBuilder};
use dungeon_builder::position::Position;
use dungeon_builder::prefab_builder::prefab_levels::{PrefabLevel, RexImage, RexLayer};
use dungeon_builder::prefab_builder::prefab_rooms::{checkerboard, not_a_trap, silly_smile, PrefabRoom};
use dungeon_builder::prefab_builder::prefab_sections::{
    pad, pad_lines, underground_fort, HorizontalPlacement, PrefabSection, VerticalPlacement,
};
use dungeon_builder::prefab_builder::{Footprint, PrefabBuilder, PrefabMode};
use dungeon_builder::tile_map::{TileMap, TileType};

fn fresh(width: i32, height: i32) -> BuildData {
    BuildData {
        spawn_list: Vec::new(),
        map: TileMap::with_size(width, height, 5),
        start: None,
        rooms: None,
        history: Vec::new(),
        record_history: false,
    }
}

fn open_data(width: i32, height: i32) -> BuildData {
    let mut data = fresh(width, height);
    for y in 1..height - 1 {
        for x in 1..width - 1 {
            let idx = data.map.xy_idx(x, y);
            data.map.tiles[idx] = TileType::Floor;
        }
    }
    data
}

#[test]
fn lines_are_padded_with_spaces() {
    assert_eq!(pad_lines("a\n\nbc", 3), "a     bc ");
    assert_eq!(pad_lines("abcd\n", 2), "abcd");
    assert_eq!(pad_lines("", 3), "");
    assert_eq!(pad_lines("\n", 2), "  ");
    assert_eq!(pad_lines("ab\ncd", 0), "abcd");
    assert_eq!(pad("ab\ncd"), "ab             cd             ");
}

#[test]
fn room_template_is_padded_to_the_room() {
    let text = dungeon_builder::prefab_builder::prefab_rooms::get_template_str(not_a_trap());
    assert_eq!(text, "           ^^^  ^!^  ^^^      ");
    let text = dungeon_builder::prefab_builder::prefab_rooms::get_template_str(checkerboard());
    assert_eq!(text, "             g#%#  #!#   ^# #       ");
    assert_eq!(silly_smile().width, 6);
    assert_eq!(silly_smile().last_depth, 100);
}

#[test]
fn section_template_is_padded_to_fifteen() {
    let fort = underground_fort();
    let text = dungeon_builder::prefab_builder::prefab_sections::get_template_str(fort);
    let glyphs: Vec<char> = text.chars().collect();
    assert_eq!(glyphs.len(), 44 * 15);
    assert!(glyphs[0..15].iter().all(|c| *c == ' '));
    assert_eq!(glyphs[15 + 5], '#');
    assert_eq!(glyphs[2 * 15 + 2], '#');
    assert_eq!(glyphs[5 * 15 + 5], 'g');
    assert_eq!(glyphs[5 * 15 + 14], '#');
    assert_eq!(glyphs[12 * 15 + 4], '^');
    assert!(fort.placement == (HorizontalPlacement::Right, VerticalPlacement::Top));
    assert_eq!((fort.width, fort.height), (15, 43));
}

#[test]
fn glyphs_are_the_template_without_line_ends() {
    assert_eq!(PrefabBuilder::read_ascii_to_vec("a\r\nb\u{a0}c\n"), vec!['a', 'b', ' ', 'c']);
    assert_eq!(PrefabBuilder::read_ascii_to_vec("#@ >"), vec!['#', '@', ' ', '>']);
    assert_eq!(PrefabBuilder::read_ascii_to_vec("\u{1a0}"), vec![' ']);
    assert!(PrefabBuilder::read_ascii_to_vec("\n\r\n").is_empty());
}

#[test]
fn each_glyph_on_the_map() {
    let mut data = fresh(10, 10);
    let cases = [
        (' ', TileType::Floor, None),
        ('g', TileType::Floor, Some("Goblin")),
        ('o', TileType::Floor, Some("Orc")),
        ('^', TileType::Floor, Some("Bear Trap")),
        ('%', TileType::Floor, Some("Rations")),
        ('!', TileType::Floor, Some("Health Potion")),
        ('>', TileType::DownStairs, None),
    ];
    for (i, (glyph, tile, name)) in cases.iter().enumerate() {
        let idx = 11 + i;
        let before = data.spawn_list.len();
        PrefabBuilder::char_to_map(*glyph, idx, &mut data);
        assert_eq!(data.map.tiles[idx], *tile);
        match name {
            Some(name) => {
                assert_eq!(data.spawn_list.len(), before + 1);
                assert_eq!(data.spawn_list[before], (idx, name.to_string()));
            }
            None => assert_eq!(data.spawn_list.len(), before),
        }
    }
    assert!(data.start.is_none());
    PrefabBuilder::char_to_map('@', 34, &mut data);
    assert_eq!(data.map.tiles[34], TileType::Floor);
    assert!(data.start == Some(Position::new(4, 3)));
    PrefabBuilder::char_to_map('#', 34, &mut data);
    assert_eq!(data.map.tiles[34], TileType::Wall);
    let tiles = data.map.tiles.clone();
    let spawns = data.spawn_list.len();
    PrefabBuilder::char_to_map('?', 35, &mut data);
    assert_eq!(data.map.tiles, tiles);
    assert_eq!(data.spawn_list.len(), spawns);
    assert!(data.start == Some(Position::new(4, 3)));
}

#[test]
fn level_is_laid_without_its_first_row_and_column() {
    let level = PrefabLevel { template: "@ #\n g \n# >\n", width: 3, height: 3 };
    let mut data = fresh(6, 6);
    PrefabBuilder::load_ascii_map(&level, &mut data);
    assert!(data.start.is_none());
    assert_eq!(data.map.tiles[data.map.xy_idx(0, 0)], TileType::Wall);
    assert_eq!(data.map.tiles[data.map.xy_idx(1, 1)], TileType::Floor);
    assert_eq!(data.map.tiles[data.map.xy_idx(2, 1)], TileType::Floor);
    assert_eq!(data.map.tiles[data.map.xy_idx(1, 2)], TileType::Floor);
    assert_eq!(data.map.tiles[data.map.xy_idx(2, 2)], TileType::DownStairs);
    assert_eq!(data.spawn_list, vec![(7, "Goblin".to_string())]);
    assert_eq!(data.map.count_floor_tiles(), 3);
}

#[test]
fn stamp_lays_a_grid_at_an_offset() {
    let mut data = fresh(8, 8);
    let glyphs = vec![' ', 'g', '#', ' ', ' ', ' '];
    let print = Footprint {
        width: 3,
        height: 2,
        offset_x: 6,
        offset_y: 3,
        x_min: 0,
        y_min: 0,
        x_max: 3,
        y_max: 2,
    };
    PrefabBuilder::stamp(&glyphs, print, &mut data);
    assert_eq!(data.map.tiles[data.map.xy_idx(6, 3)], TileType::Floor);
    assert_eq!(data.map.tiles[data.map.xy_idx(7, 3)], TileType::Floor);
    assert_eq!(data.map.tiles[data.map.xy_idx(6, 4)], TileType::Floor);
    assert_eq!(data.map.tiles[data.map.xy_idx(7, 4)], TileType::Floor);
    assert_eq!(data.map.count_floor_tiles(), 4);
    assert_eq!(data.spawn_list, vec![(31, "Goblin".to_string())]);
}

#[test]
fn spawns_in_an_area_are_dropped() {
    let mut data = fresh(10, 10);
    data.record_history = true;
    for idx in [11, 25, 36, 47, 88] {
        data.spawn_list.push((idx, "Orc".to_string()));
    }
    PrefabBuilder::apply_previous_iteration(None, &mut data);
    assert_eq!(data.spawn_list.len(), 5);
    assert_eq!(data.history.len(), 1);
    PrefabBuilder::apply_previous_iteration(Some((5, 2, 7, 4)), &mut data);
    let kept: Vec<usize> = data.spawn_list.iter().map(|s| s.0).collect();
    assert_eq!(kept, vec![11, 88]);
    assert_eq!(data.history.len(), 2);
}

#[test]
fn fort_is_laid_along_the_right_edge() {
    let mut data = BuildData::new(2, false);
    data.spawn_list.push((5 * 80 + 70, "Orc".to_string()));
    data.spawn_list.push((5 * 80 + 10, "Orc".to_string()));
    let before = data.map.tiles.clone();
    PrefabBuilder::apply_sectional(&underground_fort(), &mut data);
    assert_eq!(data.map.tiles[data.map.xy_idx(69, 1)], TileType::Wall);
    assert_eq!(data.map.tiles[data.map.xy_idx(65, 1)], TileType::Floor);
    assert_eq!(data.map.tiles[data.map.xy_idx(68, 1)], TileType::Floor);
    assert_eq!(data.map.tiles[data.map.xy_idx(66, 2)], TileType::Wall);
    assert_eq!(data.map.tiles[data.map.xy_idx(69, 5)], TileType::Floor);
    assert_eq!(data.map.tiles[data.map.xy_idx(68, 12)], TileType::Floor);
    for y in 0..43 {
        for x in 0..80 {
            let idx = data.map.xy_idx(x, y);
            if x < 65 || x > 78 || y < 1 || y > 41 {
                assert_eq!(data.map.tiles[idx], before[idx]);
            }
        }
    }
    assert_eq!(data.spawn_list[0], (5 * 80 + 10, "Orc".to_string()));
    assert!(data.spawn_list.contains(&(5 * 80 + 69, "Goblin".to_string())));
    assert!(data.spawn_list.contains(&(12 * 80 + 68, "Bear Trap".to_string())));
    assert!(!data.spawn_list.contains(&(5 * 80 + 70, "Orc".to_string())));
}

#[test]
fn small_section_in_the_middle() {
    let section = PrefabSection {
        template: "###\n#>#\n###\n",
        width: 3,
        height: 3,
        placement: (HorizontalPlacement::Center, VerticalPlacement::Center),
    };
    let mut data = open_data(11, 9);
    PrefabBuilder::apply_sectional(&section, &mut data);
    // The section goes at (4, 3); its first row and column are not laid,
    // and its lines are padded to fifteen glyphs.
    assert_eq!(data.map.tiles[data.map.xy_idx(4, 3)], TileType::Floor);
    assert_eq!(data.map.tiles[data.map.xy_idx(5, 3)], TileType::Floor);
    assert_eq!(data.map.tiles[data.map.xy_idx(5, 4)], TileType::Floor);
    assert_eq!(data.map.tiles[data.map.xy_idx(6, 4)], TileType::Floor);
    assert_eq!(data.map.tiles[data.map.xy_idx(6, 5)], TileType::Floor);
    assert_eq!(data.map.count_floor_tiles(), 63);
}

#[test]
fn pocket_must_be_open_floor() {
    let mut data = open_data(16, 14);
    let claimed: HashSet<usize> = HashSet::new();
    assert!(PrefabBuilder::is_pocket_open(&data.map, &claimed, 5, 5, 2, 2));
    assert!(!PrefabBuilder::is_pocket_open(&data.map, &claimed, 5, 5, 1, 2));
    assert!(!PrefabBuilder::is_pocket_open(&data.map, &claimed, 5, 5, 2, 1));
    assert!(PrefabBuilder::is_pocket_open(&data.map, &claimed, 5, 5, 8, 6));
    assert!(!PrefabBuilder::is_pocket_open(&data.map, &claimed, 5, 5, 9, 6));
    assert!(!PrefabBuilder::is_pocket_open(&data.map, &claimed, 5, 5, 8, 7));
    assert!(PrefabBuilder::find_pocket(&data.map, &claimed, 5, 5) == Some(Position::new(2, 2)));
    let idx = data.map.xy_idx(4, 4);
    data.map.tiles[idx] = TileType::Wall;
    assert!(!PrefabBuilder::is_pocket_open(&data.map, &claimed, 5, 5, 2, 2));
    assert!(PrefabBuilder::find_pocket(&data.map, &claimed, 5, 5) == Some(Position::new(5, 2)));
    let mut taken = claimed.clone();
    taken.insert(data.map.xy_idx(9, 6));
    assert!(PrefabBuilder::find_pocket(&data.map, &taken, 5, 5) == Some(Position::new(2, 5)));
    assert!(PrefabBuilder::find_pocket(&data.map, &claimed, 12, 5).is_none());
}

#[test]
fn vault_is_laid_and_claims_its_cells() {
    let mut data = open_data(16, 14);
    data.spawn_list.push((3 * 16 + 3, "Orc".to_string()));
    data.spawn_list.push((12 * 16 + 12, "Orc".to_string()));
    let mut claimed: HashSet<usize> = HashSet::new();
    claimed.insert(3);
    let vault: PrefabRoom = checkerboard();
    PrefabBuilder::place_vault(&vault, Position::new(2, 2), &mut claimed, &mut data);
    // The rows of the vault: two empty lines, " g#%#", " #!#", " ^# #", one empty line.
    assert_eq!(data.map.tiles[data.map.xy_idx(3, 4)], TileType::Floor);
    assert_eq!(data.map.tiles[data.map.xy_idx(4, 4)], TileType::Wall);
    assert_eq!(data.map.tiles[data.map.xy_idx(6, 4)], TileType::Wall);
    assert_eq!(data.map.tiles[data.map.xy_idx(3, 5)], TileType::Wall);
    assert_eq!(data.map.tiles[data.map.xy_idx(5, 6)], TileType::Floor);
    assert_eq!(data.map.tiles[data.map.xy_idx(6, 6)], TileType::Wall);
    let names: Vec<(usize, &str)> = data.spawn_list.iter().map(|s| (s.0, s.1.as_str())).collect();
    assert_eq!(
        names,
        vec![
            (12 * 16 + 12, "Orc"),
            (4 * 16 + 3, "Goblin"),
            (4 * 16 + 5, "Rations"),
            (5 * 16 + 4, "Health Potion"),
            (6 * 16 + 3, "Bear Trap"),
        ]
    );
    for y in 0..14 {
        for x in 0..16 {
            let inside = x >= 2 && x < 8 && y >= 2 && y < 8;
            let idx = data.map.xy_idx(x, y);
            assert_eq!(claimed.contains(&idx), inside || idx == 3);
        }
    }
}

#[test]
fn vaults_replace_floor_only() {
    let mut data = open_data(40, 30);
    data.map.depth = 10;
    let before = data.map.tiles.clone();
    let mut rng = rltk::RandomNumberGenerator::seeded(15);
    PrefabBuilder::apply_room_vaults(&mut rng, &mut data);
    let mut changed = 0;
    for (i, tile) in data.map.tiles.iter().enumerate() {
        if *tile != before[i] {
            changed += 1;
            assert_eq!(before[i], TileType::Floor);
        }
    }
    assert!(changed > 0);
    assert!(!data.spawn_list.is_empty());
    for spawn in data.spawn_list.iter() {
        assert_eq!(data.map.tiles[spawn.0], TileType::Floor);
    }
}

#[test]
fn vaults_stay_away_at_low_depth() {
    let mut data = open_data(40, 30);
    data.map.depth = -10;
    let before = data.map.tiles.clone();
    let mut rng = rltk::RandomNumberGenerator::seeded(15);
    PrefabBuilder::apply_room_vaults(&mut rng, &mut data);
    assert_eq!(data.map.tiles, before);
    assert!(data.spawn_list.is_empty());
}

#[test]
fn layers_are_laid_one_over_the_other() {
    let lower = RexLayer { width: 3, height: 2, cells: vec![32, 35, 32, 103, 32, 64] };
    let upper = RexLayer { width: 2, height: 1, cells: vec![35, 0x120] };
    let image = RexImage { layers: vec![lower, upper] };
    assert!(PrefabBuilder::check_layers(&image));
    let mut data = fresh(4, 4);
    PrefabBuilder::load_rex_map(&image, &mut data);
    assert_eq!(data.map.tiles[0], TileType::Wall);
    assert_eq!(data.map.tiles[1], TileType::Floor);
    assert_eq!(data.map.tiles[2], TileType::Floor);
    assert_eq!(data.map.tiles[4], TileType::Floor);
    assert_eq!(data.map.tiles[5], TileType::Floor);
    assert_eq!(data.map.tiles[6], TileType::Floor);
    assert_eq!(data.spawn_list, vec![(4, "Goblin".to_string())]);
    assert!(data.start == Some(Position::new(2, 1)));
}

#[test]
fn prefab_stage_runs_its_mode() {
    let mut rng = rltk::RandomNumberGenerator::seeded(1);
    let level = PrefabLevel { template: "   \n @ \n   \n", width: 3, height: 3 };
    let mut stage = PrefabBuilder::constant(level);
    let mut data = fresh(6, 6);
    data.record_history = true;
    assert!(InitialMapBuilder::build_map(&mut *stage, &mut rng, &mut data) == Ok(()));
    assert!(data.start == Some(Position::new(1, 1)));
    assert_eq!(data.history.len(), 1);
    let huge = PrefabLevel { template: "", width: 20000, height: 3 };
    let mut stage = PrefabBuilder::constant(huge);
    assert!(!stage.check_templates());
    assert!(MetaMapBuilder::build_map(&mut *stage, &mut rng, &mut data) == Err(BuildError::BadTemplate));
    let stage = PrefabBuilder::room_vaults();
    assert!(matches!(stage.mode, PrefabMode::RoomVaults));
    let stage = PrefabBuilder::sectional(underground_fort());
    assert!(matches!(stage.mode, PrefabMode::Sectional { .. }));
    let stage = PrefabBuilder::rex_level(RexImage { layers: Vec::new() });
    assert!(matches!(stage.mode, PrefabMode::RexLevel { .. }));
    let stage = PrefabBuilder::new(PrefabMode::RoomVaults);
    assert!(stage.check_templates());
}
