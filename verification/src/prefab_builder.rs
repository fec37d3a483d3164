pub mod prefab_levels;
pub mod prefab_rooms;
pub mod prefab_sections;

use crate::build_data::{BuildData, BuildError};
use crate::chain::{InitialMapBuilder, MetaMapBuilder};
use crate::position::Position;
use crate::prefab_builder::prefab_levels::{PrefabLevel, RexImage, RexLayer};
use crate::prefab_builder::prefab_rooms::PrefabRoom;
use crate::prefab_builder::prefab_sections::{
    padded, HorizontalPlacement, PrefabSection, VerticalPlacement, SECTION_LINE_WIDTH,
};
use crate::spawner::spawns_valid;
use crate::tile_map::{
    cell_index, col_of, is_interior, lemma_cell_unique, lemma_index_cell, row_of, TileMap,
    TileType, MAX_DIMENSION,
};
use rltk::RandomNumberGenerator;
use std::collections::HashSet;
use vstd::prelude::*;
use vstd::string::StrSliceExecFns;

verus! {

/// What a prefab stage lays on the map.
pub enum PrefabMode {
    RexLevel { image: RexImage },
    Constant { level: PrefabLevel },
    Sectional { section: PrefabSection },
    RoomVaults,
}

/// Lays prepared templates on the map: a whole level, a section along an
/// edge, or vaults set into open pockets.
pub struct PrefabBuilder {
    pub mode: PrefabMode,
}

/// The tile that a glyph of a template stands for, if it is a known glyph.
pub open spec fn glyph_tile(ch: char) -> Option<TileType> {
    if ch == '#' {
        Some(TileType::Wall)
    } else if ch == '>' {
        Some(TileType::DownStairs)
    } else if ch == ' ' || ch == '@' || ch == 'g' || ch == 'o' || ch == '^' || ch == '%' || ch
        == '!' {
        Some(TileType::Floor)
    } else {
        None
    }
}

/// The name of what a glyph of a template asks to be spawned, if anything.
pub open spec fn glyph_spawn(ch: char) -> Option<Seq<char>> {
    if ch == 'g' {
        Some("Goblin"@)
    } else if ch == 'o' {
        Some("Orc"@)
    } else if ch == '^' {
        Some("Bear Trap"@)
    } else if ch == '%' {
        Some("Rations"@)
    } else if ch == '!' {
        Some("Health Potion"@)
    } else {
        None
    }
}

/// The spawn requests with each name as its characters.
pub open spec fn spawn_view(list: Seq<(usize, String)>) -> Seq<(usize, Seq<char>)> {
    Seq::new(list.len(), |i: int| (list[i].0, list[i].1@))
}

/// What templates write on: the tiles, the starting position and the spawn
/// requests.
pub struct Canvas {
    pub tiles: Seq<TileType>,
    pub start: Option<Position>,
    pub spawns: Seq<(usize, Seq<char>)>,
}

/// The canvas of a build record.
pub open spec fn canvas_of(data: &BuildData) -> Canvas {
    Canvas { tiles: data.map.tiles@, start: data.start, spawns: spawn_view(data.spawn_list@) }
}

/// The canvas after the glyph `ch` was laid on the cell with index `idx`
/// of a map `width` wide: the glyph's tile, the start where the glyph
/// marks it, the glyph's spawn request; nothing for an unknown glyph.
pub open spec fn glyph_step(canvas: Canvas, width: int, ch: char, idx: int) -> Canvas {
    Canvas {
        tiles: match glyph_tile(ch) {
            Some(tile) => canvas.tiles.update(idx, tile),
            None => canvas.tiles,
        },
        start: if ch == '@' {
            Some(Position { x: (idx % width) as i32, y: (idx / width) as i32 })
        } else {
            canvas.start
        },
        spawns: match glyph_spawn(ch) {
            Some(name) => canvas.spawns.push((idx as usize, name)),
            None => canvas.spawns,
        },
    }
}

/// How a template grid is laid on the map: its size, where its first cell
/// goes, and the part of it that is laid at all, from `(x_min, y_min)` up
/// to but not including `(x_max, y_max)`.
#[derive(Clone, Copy)]
pub struct Footprint {
    pub width: usize,
    pub height: usize,
    pub offset_x: i32,
    pub offset_y: i32,
    pub x_min: i32,
    pub y_min: i32,
    pub x_max: i32,
    pub y_max: i32,
}

impl Footprint {
    /// Whether the `i`-th cell of the template, at `(x, y)` of its grid,
    /// is laid on a map of `map_width` by `map_height`, there being
    /// `glyphs` glyphs: it lies in the part that is laid, it has a glyph,
    /// and it comes to lie on the map.
    pub open spec fn applies(
        &self,
        map_width: int,
        map_height: int,
        glyphs: int,
        x: int,
        y: int,
        i: int,
    ) -> bool {
        &&& self.x_min <= x < self.x_max
        &&& self.y_min <= y < self.y_max
        &&& i < glyphs
        &&& 0 <= x + self.offset_x < map_width
        &&& 0 <= y + self.offset_y < map_height
    }

    /// Whether the cell `(x, y)` of the map lies where the template's laid
    /// part comes to lie.
    pub open spec fn covers(&self, x: int, y: int) -> bool {
        &&& self.x_min <= x - self.offset_x < self.x_max
        &&& self.y_min <= y - self.offset_y < self.y_max
        &&& 0 <= x - self.offset_x < self.width
        &&& 0 <= y - self.offset_y < self.height
    }
}

/// The canvas after the first `k` cells of the template, taken row by row,
/// were laid.
pub open spec fn stamped(
    canvas: Canvas,
    map_width: int,
    map_height: int,
    glyphs: Seq<char>,
    print: Footprint,
    k: int,
) -> Canvas
    decreases k,
{
    if k <= 0 {
        canvas
    } else {
        let before = stamped(canvas, map_width, map_height, glyphs, print, k - 1);
        let i = k - 1;
        let x = i % (print.width as int);
        let y = i / (print.width as int);
        if print.applies(map_width, map_height, glyphs.len() as int, x, y, i) {
            glyph_step(
                before,
                map_width,
                glyphs[i],
                cell_index(map_width, x + print.offset_x, y + print.offset_y),
            )
        } else {
            before
        }
    }
}

/// Whether `after` is `before` with spawns added at its end, each for a
/// floor tile of its own among the cells that `print` covers and that
/// `visited` holds.
pub open spec fn spawns_added(
    before: Seq<(usize, String)>,
    after: Seq<(usize, String)>,
    tiles: Seq<TileType>,
    width: int,
    print: Footprint,
    visited: spec_fn(int, int) -> bool,
) -> bool {
    &&& before.len() <= after.len()
    &&& forall|i: int| 0 <= i < before.len() ==> after[i] == before[i]
    &&& forall|i: int|
        before.len() <= i < after.len() ==> {
            let idx = (#[trigger] after[i]).0 as int;
            &&& 0 <= idx < tiles.len()
            &&& tiles[idx] == TileType::Floor
            &&& print.covers(col_of(width, idx), row_of(width, idx))
            &&& visited(col_of(width, idx), row_of(width, idx))
        }
    &&& forall|i: int, j: int| before.len() <= i < j < after.len() ==> after[i].0 != after[j].0
}

/// Whether every spawn is for a tile outside the cells from `(x_min,
/// y_min)` to `(x_max, y_max)`, both included.
pub open spec fn spawns_clear_of(
    spawns: Seq<(usize, String)>,
    width: int,
    x_min: int,
    y_min: int,
    x_max: int,
    y_max: int,
) -> bool {
    forall|i: int|
        0 <= i < spawns.len() ==> {
            let idx = (#[trigger] spawns[i]).0 as int;
            col_of(width, idx) < x_min || col_of(width, idx) > x_max || row_of(width, idx) < y_min
                || row_of(width, idx) > y_max
        }
}

/// Spawns that were in order before a template was laid, and clear of a
/// rectangle that holds all the cells that the template covers, are in
/// order together with the spawns that the template added.
pub proof fn lemma_laid_spawns_valid(
    tiles_before: Seq<TileType>,
    tiles: Seq<TileType>,
    before: Seq<(usize, String)>,
    after: Seq<(usize, String)>,
    width: int,
    print: Footprint,
    x_min: int,
    y_min: int,
    x_max: int,
    y_max: int,
)
    requires
        tiles.len() == tiles_before.len(),
        spawns_valid(tiles_before, before),
        spawns_clear_of(before, width, x_min, y_min, x_max, y_max),
        forall|x: int, y: int| #[trigger]
            print.covers(x, y) ==> x_min <= x <= x_max && y_min <= y <= y_max,
        forall|i: int|
            0 <= i < tiles.len() ==> #[trigger] tiles[i] == tiles_before[i] || print.covers(
                col_of(width, i),
                row_of(width, i),
            ),
        spawns_added(before, after, tiles, width, print, |x: int, y: int| true),
    ensures
        spawns_valid(tiles, after),
{
    assert forall|i: int| 0 <= i < after.len() implies (#[trigger] after[i]).0 < tiles.len()
        && tiles[after[i].0 as int] == TileType::Floor by {
        if i < before.len() {
            assert(after[i] == before[i]);
            let idx = before[i].0 as int;
            assert(!print.covers(col_of(width, idx), row_of(width, idx)));
            assert(tiles[idx] == tiles_before[idx]);
        }
    }
    assert forall|i: int, j: int| 0 <= i < j < after.len() implies after[i].0 != after[j].0 by {
        if j < before.len() {
            assert(after[i] == before[i] && after[j] == before[j]);
        } else if i < before.len() {
            assert(after[i] == before[i]);
            let a = before[i].0 as int;
            let b = after[j].0 as int;
            assert(!print.covers(col_of(width, a), row_of(width, a)));
            assert(print.covers(col_of(width, b), row_of(width, b)));
        }
    }
}

/// The first `n` characters of a template without carriage returns and
/// line feeds, and with a space for each character whose code ends in the
/// byte 160.
pub open spec fn glyphs_of(template: Seq<char>, n: int) -> Seq<char>
    decreases n,
{
    if n <= 0 {
        Seq::empty()
    } else {
        let before = glyphs_of(template, n - 1);
        let c = template[n - 1];
        if c == '\r' || c == '\n' {
            before
        } else if (c as u32) % 256 == 160 {
            before.push(' ')
        } else {
            before.push(c)
        }
    }
}

/// The first `n` spawn requests without those on a cell from `(x_min,
/// y_min)` to `(x_max, y_max)`, both included, of a map `width` wide.
pub open spec fn spawns_outside(
    spawns: Seq<(usize, Seq<char>)>,
    n: int,
    width: int,
    x_min: int,
    y_min: int,
    x_max: int,
    y_max: int,
) -> Seq<(usize, Seq<char>)>
    decreases n,
{
    if n <= 0 {
        Seq::empty()
    } else {
        let before = spawns_outside(spawns, n - 1, width, x_min, y_min, x_max, y_max);
        let x = spawns[n - 1].0 as int % width;
        let y = spawns[n - 1].0 as int / width;
        if x < x_min || x > x_max || y < y_min || y > y_max {
            before.push(spawns[n - 1])
        } else {
            before
        }
    }
}

impl PrefabBuilder {
    pub fn new(mode: PrefabMode) -> (stage: Box<PrefabBuilder>)
        ensures
            stage.mode == mode,
    {
        Box::new(PrefabBuilder { mode })
    }

    pub fn room_vaults() -> (stage: Box<PrefabBuilder>)
        ensures
            stage.mode is RoomVaults,
    {
        Box::new(PrefabBuilder { mode: PrefabMode::RoomVaults })
    }

    pub fn rex_level(image: RexImage) -> (stage: Box<PrefabBuilder>)
        ensures
            stage.mode == (PrefabMode::RexLevel { image }),
    {
        Box::new(PrefabBuilder { mode: PrefabMode::RexLevel { image } })
    }

    pub fn constant(level: PrefabLevel) -> (stage: Box<PrefabBuilder>)
        ensures
            stage.mode == (PrefabMode::Constant { level }),
    {
        Box::new(PrefabBuilder { mode: PrefabMode::Constant { level } })
    }

    pub fn sectional(section: PrefabSection) -> (stage: Box<PrefabBuilder>)
        ensures
            stage.mode == (PrefabMode::Sectional { section }),
    {
        Box::new(PrefabBuilder { mode: PrefabMode::Sectional { section } })
    }

    /// The glyphs of a template: its characters without the line ends.
    pub fn read_ascii_to_vec(template: &str) -> (glyphs: Vec<char>)
        ensures
            glyphs@ == glyphs_of(template@, template@.len() as int),
    {
        let n = template.unicode_len();
        let mut glyphs: Vec<char> = Vec::new();
        let mut i: usize = 0;
        while i < n
            invariant
                n == template@.len(),
                i <= n,
                glyphs@ == glyphs_of(template@, i as int),
            decreases n - i,
        {
            let c = template.get_char(i);
            if c != '\r' && c != '\n' {
                if (c as u32) % 256 == 160 {
                    glyphs.push(' ');
                } else {
                    glyphs.push(c);
                }
            }
            i += 1;
        }
        glyphs
    }

    /// Lays the glyph `ch` on the cell with index `idx`.
    pub fn char_to_map(ch: char, idx: usize, build_data: &mut BuildData)
        requires
            old(build_data).wf(),
            idx < old(build_data).map.tiles@.len(),
        ensures
            final(build_data).wf(),
            final(build_data).map.same_but_tiles(&old(build_data).map),
            canvas_of(final(build_data)) == glyph_step(
                canvas_of(old(build_data)),
                old(build_data).map.width as int,
                ch,
                idx as int,
            ),
            final(build_data).rooms == old(build_data).rooms,
            final(build_data).history == old(build_data).history,
            final(build_data).record_history == old(build_data).record_history,
            old(build_data).spawn_list@.len() <= final(build_data).spawn_list@.len()
                <= old(build_data).spawn_list@.len() + 1,
            forall|i: int|
                0 <= i < old(build_data).spawn_list@.len() ==> final(build_data).spawn_list@[i]
                    == old(build_data).spawn_list@[i],
            final(build_data).spawn_list@.len() > old(build_data).spawn_list@.len()
                ==> final(build_data).spawn_list@.last().0 == idx
                && final(build_data).map.tiles@[idx as int]
                == TileType::Floor,
            forall|i: int|
                0 <= i < final(build_data).map.tiles@.len() && i != idx
                    ==> final(build_data).map.tiles@[i] == old(build_data).map.tiles@[i],
    {
        let ghost before = spawn_view(build_data.spawn_list@);
        proof {
            crate::tile_map::lemma_index_cell(
                build_data.map.width as int,
                build_data.map.height as int,
                idx as int,
            );
        }
        match ch {
            ' ' => {
                build_data.map.tiles[idx] = TileType::Floor;
            },
            '#' => {
                build_data.map.tiles[idx] = TileType::Wall;
            },
            '@' => {
                build_data.map.tiles[idx] = TileType::Floor;
                build_data.start = Some(
                    Position {
                        x: (idx % build_data.map.width as usize) as i32,
                        y: (idx / build_data.map.width as usize) as i32,
                    },
                );
            },
            '>' => {
                build_data.map.tiles[idx] = TileType::DownStairs;
            },
            'g' => {
                build_data.map.tiles[idx] = TileType::Floor;
                build_data.spawn_list.push((idx, "Goblin".to_owned()));
            },
            'o' => {
                build_data.map.tiles[idx] = TileType::Floor;
                build_data.spawn_list.push((idx, "Orc".to_owned()));
            },
            '^' => {
                build_data.map.tiles[idx] = TileType::Floor;
                build_data.spawn_list.push((idx, "Bear Trap".to_owned()));
            },
            '%' => {
                build_data.map.tiles[idx] = TileType::Floor;
                build_data.spawn_list.push((idx, "Rations".to_owned()));
            },
            '!' => {
                build_data.map.tiles[idx] = TileType::Floor;
                build_data.spawn_list.push((idx, "Health Potion".to_owned()));
            },
            _ => {},
        }
        proof {
            let after = spawn_view(build_data.spawn_list@);
            match glyph_spawn(ch) {
                Some(name) => {
                    assert(after =~= before.push((idx, name)));
                },
                None => {
                    assert(after =~= before);
                },
            }
        }
    }

    /// Lays the template grid `glyphs` on the map as `print` says, cell by
    /// cell, row by row.
    pub fn stamp(glyphs: &Vec<char>, print: Footprint, build_data: &mut BuildData)
        requires
            old(build_data).wf(),
            print.width <= MAX_DIMENSION,
            print.height <= MAX_DIMENSION,
        ensures
            final(build_data).wf(),
            final(build_data).map.same_but_tiles(&old(build_data).map),
            canvas_of(final(build_data)) == stamped(
                canvas_of(old(build_data)),
                old(build_data).map.width as int,
                old(build_data).map.height as int,
                glyphs@,
                print,
                print.width * print.height,
            ),
            forall|i: int|
                0 <= i < final(build_data).map.tiles@.len()
                    ==> #[trigger] final(build_data).map.tiles@[i]
                    == old(build_data).map.tiles@[i] || print.covers(
                    col_of(old(build_data).map.width as int, i),
                    row_of(old(build_data).map.width as int, i),
                ),
            spawns_added(
                old(build_data).spawn_list@,
                final(build_data).spawn_list@,
                final(build_data).map.tiles@,
                old(build_data).map.width as int,
                print,
                |x: int, y: int| true,
            ),
            final(build_data).rooms == old(build_data).rooms,
            final(build_data).history == old(build_data).history,
            final(build_data).record_history == old(build_data).record_history,
    {
        let ghost w = build_data.map.width as int;
        let ghost h = build_data.map.height as int;
        let ghost start = canvas_of(build_data);
        let mut i: usize = 0;
        let mut y: usize = 0;
        proof {
            assert(print.width * print.height <= MAX_DIMENSION * MAX_DIMENSION)
                by (nonlinear_arith)
                requires
                    0 <= print.width <= MAX_DIMENSION,
                    0 <= print.height <= MAX_DIMENSION,
            ;
        }
        while y < print.height
            invariant
                build_data.wf(),
                build_data.map.same_but_tiles(&old(build_data).map),
                w == build_data.map.width,
                h == build_data.map.height,
                start == canvas_of(old(build_data)),
                print.width <= MAX_DIMENSION,
                print.height <= MAX_DIMENSION,
                print.width * print.height <= 0x1000_0000,
                y <= print.height,
                i == y * print.width,
                canvas_of(build_data) == stamped(start, w, h, glyphs@, print, i as int),
                forall|k: int|
                    0 <= k < build_data.map.tiles@.len() ==> #[trigger] build_data.map.tiles@[k]
                        == old(build_data).map.tiles@[k]
                            || print.covers(col_of(w, k), row_of(w, k)),
                spawns_added(
                    old(build_data).spawn_list@,
                    build_data.spawn_list@,
                    build_data.map.tiles@,
                    w,
                    print,
                    |cx: int, cy: int| cy - print.offset_y < y,
                ),
                build_data.rooms == old(build_data).rooms,
                build_data.history == old(build_data).history,
                build_data.record_history == old(build_data).record_history,
            decreases print.height - y,
        {
            proof {
                assert(y * print.width + print.width <= print.width * print.height)
                    by (nonlinear_arith)
                    requires
                        0 <= y < print.height,
                        0 <= print.width,
                ;
            }
            let mut x: usize = 0;
            while x < print.width
                invariant
                    build_data.wf(),
                    build_data.map.same_but_tiles(&old(build_data).map),
                    w == build_data.map.width,
                    h == build_data.map.height,
                    start == canvas_of(old(build_data)),
                    print.width <= MAX_DIMENSION,
                    print.height <= MAX_DIMENSION,
                    print.width * print.height <= 0x1000_0000,
                    y < print.height,
                    x <= print.width,
                    i == y * print.width + x,
                    y * print.width + print.width <= print.width * print.height,
                    canvas_of(build_data) == stamped(start, w, h, glyphs@, print, i as int),
                    forall|k: int|
                        0 <= k < build_data.map.tiles@.len()
                            ==> #[trigger] build_data.map.tiles@[k]
                                == old(build_data).map.tiles@[k]
                                || print.covers(col_of(w, k), row_of(w, k)),
                    spawns_added(
                        old(build_data).spawn_list@,
                        build_data.spawn_list@,
                        build_data.map.tiles@,
                        w,
                        print,
                        |cx: int, cy: int|
                            cy - print.offset_y < y || (cy - print.offset_y == y && cx
                                - print.offset_x < x),
                    ),
                    build_data.rooms == old(build_data).rooms,
                    build_data.history == old(build_data).history,
                    build_data.record_history == old(build_data).record_history,
                decreases print.width - x,
            {
                proof {
                    vstd::arithmetic::div_mod::lemma_fundamental_div_mod_converse(
                        i as int,
                        print.width as int,
                        y as int,
                        x as int,
                    );
                }
                let tx: i64 = x as i64 + print.offset_x as i64;
                let ty: i64 = y as i64 + print.offset_y as i64;
                if print.x_min as i64 <= x as i64 && (x as i64) < print.x_max as i64
                    && print.y_min as i64 <= y as i64 && (y as i64) < print.y_max as i64 && i
                    < glyphs.len() && 0 <= tx && tx < build_data.map.width as i64 && 0 <= ty && ty
                    < build_data.map.height as i64 {
                    proof {
                        lemma_cell_unique(w, h, tx as int, ty as int);
                    }
                    let idx = build_data.map.xy_idx(tx as i32, ty as i32);
                    let ghost list_then = build_data.spawn_list@;
                    let ghost tiles_then = build_data.map.tiles@;
                    PrefabBuilder::char_to_map(glyphs[i], idx, build_data);
                    proof {
                        let first = old(build_data).spawn_list@.len();
                        let list = build_data.spawn_list@;
                        assert forall|k: int| first <= k < list.len() implies {
                            let at = (#[trigger] list[k]).0 as int;
                            &&& 0 <= at < build_data.map.tiles@.len()
                            &&& build_data.map.tiles@[at] == TileType::Floor
                            &&& print.covers(col_of(w, at), row_of(w, at))
                            &&& (row_of(w, at) - print.offset_y < y || (row_of(w, at)
                                - print.offset_y == y && col_of(w, at) - print.offset_x < x + 1))
                        } by {
                            if k < list_then.len() {
                                assert(list[k] == list_then[k]);
                                let at = list_then[k].0 as int;
                                assert(at != idx);
                                assert(build_data.map.tiles@[at] == tiles_then[at]);
                            }
                        }
                        assert forall|j: int, k: int| first <= j < k < list.len() implies list[j].0
                            != list[k].0 by {
                            assert(list[j] == list_then[j]);
                            if k < list_then.len() {
                                assert(list[k] == list_then[k]);
                            } else {
                                let at = list_then[j].0 as int;
                                assert(at != idx);
                            }
                        }
                    }
                }
                i += 1;
                x += 1;
            }
            proof {
                assert(y * print.width + print.width == (y + 1) * print.width)
                    by (nonlinear_arith);
            }
            y += 1;
        }
        proof {
            assert(print.height * print.width == print.width * print.height)
                by (nonlinear_arith);
        }
    }

    /// Lays a whole-level template on the map, its first row and column
    /// left out.
    pub fn load_ascii_map(level: &PrefabLevel, build_data: &mut BuildData)
        requires
            old(build_data).wf(),
            level.width <= MAX_DIMENSION,
            level.height <= MAX_DIMENSION,
        ensures
            final(build_data).wf(),
            final(build_data).map.same_but_tiles(&old(build_data).map),
            canvas_of(final(build_data)) == stamped(
                canvas_of(old(build_data)),
                old(build_data).map.width as int,
                old(build_data).map.height as int,
                glyphs_of(level.template@, level.template@.len() as int),
                level_footprint(level, &old(build_data).map),
                level.width * level.height,
            ),
            final(build_data).rooms == old(build_data).rooms,
            final(build_data).history == old(build_data).history,
            final(build_data).record_history == old(build_data).record_history,
    {
        let string_vec = PrefabBuilder::read_ascii_to_vec(level.template);
        let print = Footprint {
            width: level.width,
            height: level.height,
            offset_x: 0,
            offset_y: 0,
            x_min: 1,
            y_min: 1,
            x_max: build_data.map.width,
            y_max: build_data.map.height,
        };
        PrefabBuilder::stamp(&string_vec, print, build_data);
    }

    /// Keeps of the spawn requests those outside the given cells, all of
    /// them where no cells are given, and takes a snapshot.
    pub fn apply_previous_iteration(area: Option<(i32, i32, i32, i32)>, build_data: &mut BuildData)
        requires
            old(build_data).wf(),
        ensures
            final(build_data).wf(),
            final(build_data).map == old(build_data).map,
            final(build_data).start == old(build_data).start,
            final(build_data).rooms == old(build_data).rooms,
            final(build_data).extends_history(old(build_data)),
            final(build_data).history@.len() == old(build_data).history@.len()
                + if old(build_data).record_history {
                1int
            } else {
                0int
            },
            spawn_view(final(build_data).spawn_list@) == match area {
                Some(cells) => spawns_outside(
                    spawn_view(old(build_data).spawn_list@),
                    old(build_data).spawn_list@.len() as int,
                    old(build_data).map.width as int,
                    cells.0 as int,
                    cells.1 as int,
                    cells.2 as int,
                    cells.3 as int,
                ),
                None => spawn_view(old(build_data).spawn_list@),
            },
            area is None ==> final(build_data).spawn_list == old(build_data).spawn_list,
            area matches Some(cells) ==> spawns_clear_of(
                final(build_data).spawn_list@,
                old(build_data).map.width as int,
                cells.0 as int,
                cells.1 as int,
                cells.2 as int,
                cells.3 as int,
            ),
            spawns_valid(old(build_data).map.tiles@, old(build_data).spawn_list@) ==> spawns_valid(
                final(build_data).map.tiles@,
                final(build_data).spawn_list@,
            ),
    {
        if let Some(cells) = area {
            let width = build_data.map.width as usize;
            let mut kept: Vec<(usize, String)> = Vec::new();
            let ghost all = spawn_view(build_data.spawn_list@);
            let mut i: usize = 0;
            while i < build_data.spawn_list.len()
                invariant
                    *build_data == *old(build_data),
                    build_data.wf(),
                    width == build_data.map.width,
                    all == spawn_view(build_data.spawn_list@),
                    i <= build_data.spawn_list@.len(),
                    spawn_view(kept@) == spawns_outside(
                        all,
                        i as int,
                        width as int,
                        cells.0 as int,
                        cells.1 as int,
                        cells.2 as int,
                        cells.3 as int,
                    ),
                    spawns_clear_of(
                        kept@,
                        width as int,
                        cells.0 as int,
                        cells.1 as int,
                        cells.2 as int,
                        cells.3 as int,
                    ),
                    forall|k: int|
                        0 <= k < kept@.len() ==> exists|j: int|
                            0 <= j < i && (#[trigger] kept@[k]).0 == build_data.spawn_list@[j].0,
                    spawns_valid(build_data.map.tiles@, build_data.spawn_list@) ==> spawns_valid(
                        build_data.map.tiles@,
                        kept@,
                    ),
                decreases build_data.spawn_list@.len() - i,
            {
                let idx = build_data.spawn_list[i].0;
                let x = idx % width;
                let y = idx / width;
                let ghost before = spawn_view(kept@);
                let ghost kept_then = kept@;
                if x < 0x8000_0000 && y < 0x8000_0000 {
                    if (x as i64) < cells.0 as i64 || x as i64 > cells.2 as i64 || (y as i64)
                        < cells.1 as i64 || y as i64 > cells.3 as i64 {
                        kept.push((idx, build_data.spawn_list[i].1.clone()));
                        proof {
                            assert(spawn_view(kept@) =~= before.push(all[i as int]));
                        }
                    }
                } else {
                    kept.push((idx, build_data.spawn_list[i].1.clone()));
                    proof {
                        assert(spawn_view(kept@) =~= before.push(all[i as int]));
                    }
                }
                proof {
                    let list = build_data.spawn_list@;
                    assert forall|k: int| 0 <= k < kept@.len() implies exists|j: int|
                        0 <= j < i + 1 && (#[trigger] kept@[k]).0 == list[j].0 by {
                        if k < kept_then.len() {
                            assert(kept@[k] == kept_then[k]);
                            let j = choose|j: int| 0 <= j < i && kept_then[k].0 == list[j].0;
                            assert(0 <= j < i + 1 && kept@[k].0 == list[j].0);
                        } else {
                            assert(kept@[k].0 == list[i as int].0);
                        }
                    }
                    if spawns_valid(build_data.map.tiles@, list) {
                        assert forall|j: int, k: int| 0 <= j < k < kept@.len() implies kept@[j].0
                            != kept@[k].0 by {
                            assert(kept@[j] == kept_then[j]);
                            if k < kept_then.len() {
                                assert(kept@[k] == kept_then[k]);
                            } else {
                                let from = choose|from: int|
                                    0 <= from < i && kept_then[j].0 == list[from].0;
                                assert(list[from].0 != list[i as int].0);
                            }
                        }
                        assert forall|k: int| 0 <= k < kept@.len() implies (#[trigger] kept@[k]).0
                            < build_data.map.tiles@.len()
                                && build_data.map.tiles@[kept@[k].0 as int]
                            == TileType::Floor by {
                            let from = choose|from: int|
                                0 <= from < i + 1 && kept@[k].0 == list[from].0;
                            assert(list[from].0 < build_data.map.tiles@.len());
                        }
                    }
                }
                i += 1;
            }
            build_data.spawn_list = kept;
        }
        build_data.take_snapshot();
    }
}

/// The column at which a section's first column goes.
pub open spec fn section_x(section: &PrefabSection, map: &TileMap) -> int {
    match section.placement.0 {
        HorizontalPlacement::Left => 0,
        HorizontalPlacement::Center => map.width / 2 - (section.width as int) / 2,
        HorizontalPlacement::Right => map.width - 1 - section.width,
    }
}

/// The row at which a section's first row goes.
pub open spec fn section_y(section: &PrefabSection, map: &TileMap) -> int {
    match section.placement.1 {
        VerticalPlacement::Top => 0,
        VerticalPlacement::Center => map.height / 2 - (section.height as int) / 2,
        VerticalPlacement::Bottom => map.height - 1 - section.height,
    }
}

/// How a section is laid on `map`: at its place, without the cells of its
/// grid that a map's border would hold.
pub open spec fn section_footprint(section: &PrefabSection, map: &TileMap) -> Footprint {
    Footprint {
        width: section.width,
        height: section.height,
        offset_x: section_x(section, map) as i32,
        offset_y: section_y(section, map) as i32,
        x_min: 1,
        y_min: 1,
        x_max: (map.width - 1) as i32,
        y_max: (map.height - 1) as i32,
    }
}

/// Whether a section of this size, laid with its first cell at `(x, y)`,
/// stays off the border of a map `width` by `height`.
pub open spec fn section_inside(
    section: &PrefabSection,
    x: int,
    y: int,
    width: int,
    height: int,
) -> bool {
    &&& x >= 0
    &&& y >= 0
    &&& x == 0 || x + section.width <= width - 1
    &&& y == 0 || y + section.height <= height - 1
}

/// How a vault is laid with its first cell at `pos`: all of it.
pub open spec fn vault_footprint(vault: &PrefabRoom, pos: Position) -> Footprint {
    Footprint {
        width: vault.width,
        height: vault.height,
        offset_x: pos.x,
        offset_y: pos.y,
        x_min: 0,
        y_min: 0,
        x_max: vault.width as i32,
        y_max: vault.height as i32,
    }
}

broadcast use vstd::std_specs::hash::group_hash_axioms;

/// For each of the first `count` tiles, whether a vault has claimed it.
pub open spec fn claim_mask(claimed: Set<usize>, count: nat) -> Seq<bool> {
    Seq::new(count, |i: int| claimed.contains(i as usize))
}

/// Whether a vault `width` by `height` can go with its first cell at `(x,
/// y)`: it keeps two cells off the first row and column and three off the
/// last, and each of its cells is floor and claimed by no other vault.
pub open spec fn pocket_open(
    tiles: Seq<TileType>,
    claimed: Seq<bool>,
    map_width: int,
    map_height: int,
    width: int,
    height: int,
    x: int,
    y: int,
) -> bool {
    &&& x > 1
    &&& y > 1
    &&& x + width < map_width - 2
    &&& y + height < map_height - 2
    &&& forall|vx: int, vy: int|
        0 <= vx < width && 0 <= vy < height ==> {
            let idx = #[trigger] cell_index(map_width, x + vx, y + vy);
            tiles[idx] == TileType::Floor && !claimed[idx]
        }
}

impl PrefabBuilder {
    /// Lays a section on its part of the map: drops the spawn requests
    /// there, then lays the section's template.
    pub fn apply_sectional(section: &PrefabSection, build_data: &mut BuildData)
        requires
            old(build_data).wf(),
            section.width <= MAX_DIMENSION,
            section.height <= MAX_DIMENSION,
        ensures
            final(build_data).wf(),
            final(build_data).map.same_but_tiles(&old(build_data).map),
            final(build_data).rooms == old(build_data).rooms,
            final(build_data).extends_history(old(build_data)),
            ({
                let map = &old(build_data).map;
                let x = section_x(section, map);
                let y = section_y(section, map);
                let cleared = Canvas {
                    tiles: map.tiles@,
                    start: old(build_data).start,
                    spawns: spawns_outside(
                        spawn_view(old(build_data).spawn_list@),
                        old(build_data).spawn_list@.len() as int,
                        map.width as int,
                        x,
                        y,
                        x + section.width,
                        y + section.height,
                    ),
                };
                let template = padded(section.template@, SECTION_LINE_WIDTH as int);
                canvas_of(final(build_data)) == stamped(
                    cleared,
                    map.width as int,
                    map.height as int,
                    glyphs_of(template, template.len() as int),
                    section_footprint(section, map),
                    section.width * section.height,
                )
            }),
            forall|i: int|
                0 <= i < final(build_data).map.tiles@.len()
                    ==> #[trigger] final(build_data).map.tiles@[i]
                    == old(build_data).map.tiles@[i] || section_footprint(
                    section,
                    &old(build_data).map,
                ).covers(
                    col_of(old(build_data).map.width as int, i),
                    row_of(old(build_data).map.width as int, i),
                ),
            old(build_data).map.border_closed() && section_inside(
                section,
                section_x(section, &old(build_data).map),
                section_y(section, &old(build_data).map),
                old(build_data).map.width as int,
                old(build_data).map.height as int,
            ) ==> final(build_data).map.border_closed(),
            spawns_valid(old(build_data).map.tiles@, old(build_data).spawn_list@) ==> spawns_valid(
                final(build_data).map.tiles@,
                final(build_data).spawn_list@,
            ),
    {
        let template = crate::prefab_builder::prefab_sections::get_template_str(*section);
        let string_vec = PrefabBuilder::read_ascii_to_vec(template.as_str());
        let width = build_data.map.width;
        let height = build_data.map.height;
        let chunk_x: i32 = match section.placement.0 {
            HorizontalPlacement::Left => 0,
            HorizontalPlacement::Center => (width / 2) - (section.width as i32 / 2),
            HorizontalPlacement::Right => (width - 1) - section.width as i32,
        };
        let chunk_y: i32 = match section.placement.1 {
            VerticalPlacement::Top => 0,
            VerticalPlacement::Center => (height / 2) - (section.height as i32 / 2),
            VerticalPlacement::Bottom => (height - 1) - section.height as i32,
        };
        PrefabBuilder::apply_previous_iteration(
            Some(
                (chunk_x, chunk_y, chunk_x + section.width as i32, chunk_y + section.height as i32),
            ),
            build_data,
        );
        let print = Footprint {
            width: section.width,
            height: section.height,
            offset_x: chunk_x,
            offset_y: chunk_y,
            x_min: 1,
            y_min: 1,
            x_max: width - 1,
            y_max: height - 1,
        };
        let ghost cleared = build_data.spawn_list@;
        PrefabBuilder::stamp(&string_vec, print, build_data);
        proof {
            if spawns_valid(old(build_data).map.tiles@, old(build_data).spawn_list@) {
                lemma_laid_spawns_valid(
                    old(build_data).map.tiles@,
                    build_data.map.tiles@,
                    cleared,
                    build_data.spawn_list@,
                    width as int,
                    print,
                    chunk_x as int,
                    chunk_y as int,
                    chunk_x + section.width,
                    chunk_y + section.height,
                );
            }
        }
        proof {
            let w = width as int;
            let h = height as int;
            if old(build_data).map.border_closed() && section_inside(
                section,
                chunk_x as int,
                chunk_y as int,
                w,
                h,
            ) {
                assert forall|i: int|
                    0 <= i < build_data.map.tiles@.len() && crate::tile_map::on_border(
                        w,
                        h,
                        col_of(w, i),
                        row_of(w, i),
                    ) implies #[trigger] build_data.map.tiles@[i] == TileType::Wall by {
                    assert(!print.covers(col_of(w, i), row_of(w, i)));
                    assert(old(build_data).map.tiles@[i] == TileType::Wall);
                }
            }
        }
        build_data.take_snapshot();
    }

    /// Whether a vault `width` by `height` can go with its first cell at
    /// `(x, y)`.
    pub fn is_pocket_open(
        map: &TileMap,
        claimed: &HashSet<usize>,
        width: usize,
        height: usize,
        x: i32,
        y: i32,
    ) -> (open: bool)
        requires
            map.wf(),
            width <= MAX_DIMENSION,
            height <= MAX_DIMENSION,
        ensures
            open == pocket_open(
                map.tiles@,
                claim_mask(claimed@, map.tiles@.len()),
                map.width as int,
                map.height as int,
                width as int,
                height as int,
                x as int,
                y as int,
            ),
    {
        if !(x > 1 && y > 1 && x as i64 + (width as i64) < map.width as i64 - 2 && y as i64 + (
        height as i64) < map.height as i64 - 2) {
            return false;
        }
        let ghost w = map.width as int;
        let ghost h = map.height as int;
        let ghost mask = claim_mask(claimed@, map.tiles@.len());
        let mut vy: i32 = 0;
        while vy < height as i32
            invariant
                map.wf(),
                mask == claim_mask(claimed@, map.tiles@.len()),
                w == map.width,
                x > 1,
                y > 1,
                x + width < map.width - 2,
                y + height < map.height - 2,
                0 <= vy <= height,
                forall|cx: int, cy: int|
                    0 <= cx < width && 0 <= cy < vy ==> {
                        let idx = #[trigger] cell_index(w, x + cx, y + cy);
                        map.tiles@[idx] == TileType::Floor && !claimed@.contains(idx as usize)
                    },
            decreases height - vy,
        {
            let mut vx: i32 = 0;
            while vx < width as i32
                invariant
                    map.wf(),
                    mask == claim_mask(claimed@, map.tiles@.len()),
                    w == map.width,
                    x > 1,
                    y > 1,
                    x + width < map.width - 2,
                    y + height < map.height - 2,
                    0 <= vy < height,
                    0 <= vx <= width,
                    forall|cx: int, cy: int|
                        (0 <= cx < width && 0 <= cy < vy) || (cy == vy && 0 <= cx < vx) ==> {
                            let idx = #[trigger] cell_index(w, x + cx, y + cy);
                            map.tiles@[idx] == TileType::Floor && !claimed@.contains(idx as usize)
                        },
                decreases width - vx,
            {
                let idx = map.xy_idx(vx + x, vy + y);
                let taken = claimed.contains(&idx);
                proof {
                    assert(mask[idx as int] == taken);
                }
                if map.tiles[idx] != TileType::Floor || taken {
                    proof {
                        assert(cell_index(w, x + vx, y + vy) == idx);
                    }
                    return false;
                }
                vx += 1;
            }
            vy += 1;
        }
        proof {
            assert forall|cx: int, cy: int| 0 <= cx < width && 0 <= cy < height implies {
                let idx = #[trigger] cell_index(w, x + cx, y + cy);
                map.tiles@[idx] == TileType::Floor && !mask[idx]
            } by {
                crate::tile_map::lemma_cell_index(w, h, x + cx, y + cy);
            }
        }
        true
    }

    /// Finds the first open pocket for a vault `width` by `height`, the
    /// cells taken row by row, the last cell of the map left out.
    pub fn find_pocket(
        map: &TileMap,
        claimed: &HashSet<usize>,
        width: usize,
        height: usize,
    ) -> (found: Option<Position>)
        requires
            map.wf(),
            width <= MAX_DIMENSION,
            height <= MAX_DIMENSION,
        ensures
            match found {
                Some(pos) => {
                    &&& 0 <= pos.x < map.width
                    &&& 0 <= pos.y < map.height
                    &&& cell_index(map.width as int, pos.x as int, pos.y as int) < map.tiles@.len()
                        - 1
                    &&& pocket_open(
                        map.tiles@,
                        claim_mask(claimed@, map.tiles@.len()),
                        map.width as int,
                        map.height as int,
                        width as int,
                        height as int,
                        pos.x as int,
                        pos.y as int,
                    )
                    &&& forall|i: int|
                        0 <= i < cell_index(map.width as int, pos.x as int, pos.y as int)
                            ==> !pocket_open(
                            map.tiles@,
                            claim_mask(claimed@, map.tiles@.len()),
                            map.width as int,
                            map.height as int,
                            width as int,
                            height as int,
                            #[trigger] col_of(map.width as int, i),
                            row_of(map.width as int, i),
                        )
                },
                None => forall|i: int|
                    0 <= i < map.tiles@.len() - 1 ==> !pocket_open(
                        map.tiles@,
                        claim_mask(claimed@, map.tiles@.len()),
                        map.width as int,
                        map.height as int,
                        width as int,
                        height as int,
                        #[trigger] col_of(map.width as int, i),
                        row_of(map.width as int, i),
                    ),
            },
    {
        let ghost w = map.width as int;
        let ghost h = map.height as int;
        let mut i: usize = 0;
        proof {
            assert(w * h <= MAX_DIMENSION * MAX_DIMENSION) by (nonlinear_arith)
                requires
                    1 <= w <= MAX_DIMENSION,
                    1 <= h <= MAX_DIMENSION,
            ;
        }
        while i + 1 < map.tiles.len()
            invariant
                map.wf(),
                i <= map.tiles@.len() <= 0x1000_0000,
                w == map.width,
                h == map.height,
                width <= MAX_DIMENSION,
                height <= MAX_DIMENSION,
                forall|k: int|
                    0 <= k < i ==> !pocket_open(
                        map.tiles@,
                        claim_mask(claimed@, map.tiles@.len()),
                        w,
                        h,
                        width as int,
                        height as int,
                        #[trigger] col_of(w, k),
                        row_of(w, k),
                    ),
            decreases map.tiles@.len() - i,
        {
            proof {
                crate::tile_map::lemma_index_cell(w, h, i as int);
            }
            let x = (i % map.width as usize) as i32;
            let y = (i / map.width as usize) as i32;
            if PrefabBuilder::is_pocket_open(map, claimed, width, height, x, y) {
                return Some(Position { x, y });
            }
            i += 1;
        }
        None
    }

    /// Sets a vault into the pocket at `pos`: drops the spawn requests
    /// there, lays the vault's template, and claims its cells.
    pub fn place_vault(
        vault: &PrefabRoom,
        pos: Position,
        claimed: &mut HashSet<usize>,
        build_data: &mut BuildData,
    )
        requires
            old(build_data).wf(),
            vault.width <= MAX_DIMENSION,
            vault.height <= MAX_DIMENSION,
            0 <= pos.x,
            0 <= pos.y,
            pos.x + vault.width <= old(build_data).map.width,
            pos.y + vault.height <= old(build_data).map.height,
        ensures
            final(build_data).wf(),
            final(build_data).map.same_but_tiles(&old(build_data).map),
            final(build_data).rooms == old(build_data).rooms,
            final(build_data).extends_history(old(build_data)),
            ({
                let map = &old(build_data).map;
                let cleared = Canvas {
                    tiles: map.tiles@,
                    start: old(build_data).start,
                    spawns: spawns_outside(
                        spawn_view(old(build_data).spawn_list@),
                        old(build_data).spawn_list@.len() as int,
                        map.width as int,
                        pos.x as int,
                        pos.y as int,
                        pos.x + vault.width,
                        pos.y + vault.height,
                    ),
                };
                let template = padded(vault.template@, vault.width as int);
                canvas_of(final(build_data)) == stamped(
                    cleared,
                    map.width as int,
                    map.height as int,
                    glyphs_of(template, template.len() as int),
                    vault_footprint(vault, pos),
                    vault.width * vault.height,
                )
            }),
            forall|i: int|
                0 <= i < old(build_data).map.tiles@.len() ==> #[trigger] claim_mask(
                    final(claimed)@,
                    old(build_data).map.tiles@.len(),
                )[i] == (claim_mask(old(claimed)@, old(build_data).map.tiles@.len())[i]
                    || vault_footprint(vault, pos).covers(
                    col_of(old(build_data).map.width as int, i),
                    row_of(old(build_data).map.width as int, i),
                )),
            spawns_valid(old(build_data).map.tiles@, old(build_data).spawn_list@) ==> spawns_valid(
                final(build_data).map.tiles@,
                final(build_data).spawn_list@,
            ),
            forall|i: int|
                0 <= i < final(build_data).map.tiles@.len()
                    ==> #[trigger] final(build_data).map.tiles@[i]
                    == old(build_data).map.tiles@[i] || vault_footprint(
                    vault,
                    pos,
                ).covers(
                    col_of(old(build_data).map.width as int, i),
                    row_of(old(build_data).map.width as int, i),
                ),
    {
        let ghost w = build_data.map.width as int;
        let ghost h = build_data.map.height as int;
        PrefabBuilder::apply_previous_iteration(
            Some((pos.x, pos.y, pos.x + vault.width as i32, pos.y + vault.height as i32)),
            build_data,
        );
        let template = crate::prefab_builder::prefab_rooms::get_template_str(*vault);
        let string_vec = PrefabBuilder::read_ascii_to_vec(template.as_str());
        let print = Footprint {
            width: vault.width,
            height: vault.height,
            offset_x: pos.x,
            offset_y: pos.y,
            x_min: 0,
            y_min: 0,
            x_max: vault.width as i32,
            y_max: vault.height as i32,
        };
        let ghost cleared = build_data.spawn_list@;
        PrefabBuilder::stamp(&string_vec, print, build_data);
        proof {
            if spawns_valid(old(build_data).map.tiles@, old(build_data).spawn_list@) {
                lemma_laid_spawns_valid(
                    old(build_data).map.tiles@,
                    build_data.map.tiles@,
                    cleared,
                    build_data.spawn_list@,
                    w,
                    print,
                    pos.x as int,
                    pos.y as int,
                    pos.x + vault.width,
                    pos.y + vault.height,
                );
            }
        }
        let mut y: i32 = 0;
        while y < vault.height as i32
            invariant
                build_data.wf(),
                w == build_data.map.width,
                h == build_data.map.height,
                vault.width <= MAX_DIMENSION,
                vault.height <= MAX_DIMENSION,
                0 <= pos.x,
                0 <= pos.y,
                pos.x + vault.width <= w,
                pos.y + vault.height <= h,
                print == vault_footprint(vault, pos),
                spawns_valid(old(build_data).map.tiles@, old(build_data).spawn_list@)
                    ==> spawns_valid(build_data.map.tiles@, build_data.spawn_list@),
                0 <= y <= vault.height,
                forall|i: int|
                    0 <= i < build_data.map.tiles@.len() ==> #[trigger] claimed@.contains(
                        i as usize,
                    ) == (old(claimed)@.contains(i as usize) || (print.covers(
                        col_of(w, i),
                        row_of(w, i),
                    ) && row_of(w, i) < pos.y + y)),
            decreases vault.height - y,
        {
            let mut x: i32 = 0;
            while x < vault.width as i32
                invariant
                    build_data.wf(),
                    w == build_data.map.width,
                    h == build_data.map.height,
                        vault.width <= MAX_DIMENSION,
                    vault.height <= MAX_DIMENSION,
                    0 <= pos.x,
                    0 <= pos.y,
                    pos.x + vault.width <= w,
                    pos.y + vault.height <= h,
                    print == vault_footprint(vault, pos),
                    spawns_valid(old(build_data).map.tiles@, old(build_data).spawn_list@)
                        ==> spawns_valid(build_data.map.tiles@, build_data.spawn_list@),
                    0 <= y < vault.height,
                    0 <= x <= vault.width,
                    forall|i: int|
                        0 <= i < build_data.map.tiles@.len() ==> #[trigger] claimed@.contains(
                            i as usize,
                        ) == (old(claimed)@.contains(i as usize) || (print.covers(
                            col_of(w, i),
                            row_of(w, i),
                        ) && (row_of(w, i) < pos.y + y || (row_of(w, i) == pos.y + y && col_of(
                            w,
                            i,
                        ) < pos.x + x)))),
                decreases vault.width - x,
            {
                proof {
                    lemma_cell_unique(w, h, pos.x + x, pos.y + y);
                }
                let idx = build_data.map.xy_idx(x + pos.x, y + pos.y);
                let ghost claimed_then = claimed@;
                claimed.insert(idx);
                proof {
                    assert(claimed@ == claimed_then.insert(idx));
                    assert(w * h <= 0x1000_0000) by (nonlinear_arith)
                        requires
                            1 <= w <= 16384,
                            1 <= h <= 16384,
                    ;
                    assert forall|i: int|
                        0 <= i < build_data.map.tiles@.len() implies #[trigger] claimed@.contains(
                        i as usize,
                    ) == (old(claimed)@.contains(i as usize) || (print.covers(
                        col_of(w, i),
                        row_of(w, i),
                    ) && (row_of(w, i) < pos.y + y || (row_of(w, i) == pos.y + y && col_of(w, i)
                        < pos.x + x + 1)))) by {
                        crate::tile_map::lemma_index_cell(w, h, i);
                        assert(claimed@.contains(i as usize) == (i == idx
                            || claimed_then.contains(i as usize)));
                    }
                }
                x += 1;
            }
            y += 1;
        }
        build_data.take_snapshot();
    }
}

/// What the placing of a vault goes by: its template, its size and the
/// depths that it is for.
pub struct VaultPlan {
    pub template: Seq<char>,
    pub width: usize,
    pub height: usize,
    pub first_depth: i32,
    pub last_depth: i32,
}

/// The plan of a vault.
pub open spec fn plan_of(vault: &PrefabRoom) -> VaultPlan {
    VaultPlan {
        template: vault.template@,
        width: vault.width,
        height: vault.height,
        first_depth: vault.first_depth,
        last_depth: vault.last_depth,
    }
}

/// The vaults that there are, in the order in which they are offered.
pub open spec fn stock_vaults() -> Seq<VaultPlan> {
    seq![
        VaultPlan {
            template: crate::prefab_builder::prefab_rooms::NOT_A_TRAP_MAP@,
            width: 5,
            height: 5,
            first_depth: 0,
            last_depth: 100,
        },
        VaultPlan {
            template: crate::prefab_builder::prefab_rooms::CHECKERBOARD_MAP@,
            width: 6,
            height: 6,
            first_depth: 0,
            last_depth: 100,
        },
        VaultPlan {
            template: crate::prefab_builder::prefab_rooms::SILLY_SMILE_MAP@,
            width: 6,
            height: 6,
            first_depth: 0,
            last_depth: 100,
        },
    ]
}

/// Those of the first `n` vaults that are for `depth`.
pub open spec fn vaults_at(depth: int, n: int) -> Seq<VaultPlan>
    decreases n,
{
    if n <= 0 {
        Seq::empty()
    } else {
        let before = vaults_at(depth, n - 1);
        let vault = stock_vaults()[n - 1];
        if vault.first_depth <= depth <= vault.last_depth {
            before.push(vault)
        } else {
            before
        }
    }
}

/// How far the setting of vaults has come: the canvas, and the cells that
/// vaults have claimed.
pub struct VaultProgress {
    pub canvas: Canvas,
    pub claimed: Seq<bool>,
}

/// Whether `found` is the outcome of the search for a pocket: the first
/// of the map's cells but the last, taken row by row, at which a pocket
/// of `width` by `height` is open, or nothing where none is.
pub open spec fn first_pocket(
    tiles: Seq<TileType>,
    claimed: Seq<bool>,
    map_width: int,
    map_height: int,
    width: int,
    height: int,
    found: Option<Position>,
) -> bool {
    match found {
        Some(pos) => {
            &&& 0 <= pos.x < map_width
            &&& 0 <= pos.y < map_height
            &&& cell_index(map_width, pos.x as int, pos.y as int) < tiles.len() - 1
            &&& pocket_open(
                tiles,
                claimed,
                map_width,
                map_height,
                width,
                height,
                pos.x as int,
                pos.y as int,
            )
            &&& forall|i: int|
                0 <= i < cell_index(map_width, pos.x as int, pos.y as int) ==> !pocket_open(
                    tiles,
                    claimed,
                    map_width,
                    map_height,
                    width,
                    height,
                    #[trigger] col_of(map_width, i),
                    row_of(map_width, i),
                )
        },
        None => forall|i: int|
            0 <= i < tiles.len() - 1 ==> !pocket_open(
                tiles,
                claimed,
                map_width,
                map_height,
                width,
                height,
                #[trigger] col_of(map_width, i),
                row_of(map_width, i),
            ),
    }
}

/// How a vault is laid with its first cell at `pos`.
pub open spec fn plan_footprint(vault: VaultPlan, pos: Position) -> Footprint {
    Footprint {
        width: vault.width,
        height: vault.height,
        offset_x: pos.x,
        offset_y: pos.y,
        x_min: 0,
        y_min: 0,
        x_max: vault.width as i32,
        y_max: vault.height as i32,
    }
}

/// The progress after `vault` was set with its first cell at `pos`: the
/// spawn requests there are dropped, the template is laid, and its cells
/// are claimed.
pub open spec fn vault_laid(
    before: VaultProgress,
    map_width: int,
    map_height: int,
    vault: VaultPlan,
    pos: Position,
) -> VaultProgress {
    let cleared = Canvas {
        tiles: before.canvas.tiles,
        start: before.canvas.start,
        spawns: spawns_outside(
            before.canvas.spawns,
            before.canvas.spawns.len() as int,
            map_width,
            pos.x as int,
            pos.y as int,
            pos.x + vault.width,
            pos.y + vault.height,
        ),
    };
    let template = padded(vault.template, vault.width as int);
    VaultProgress {
        canvas: stamped(
            cleared,
            map_width,
            map_height,
            glyphs_of(template, template.len() as int),
            plan_footprint(vault, pos),
            vault.width * vault.height,
        ),
        claimed: Seq::new(
            before.claimed.len(),
            |i: int|
                before.claimed[i] || plan_footprint(vault, pos).covers(
                    col_of(map_width, i),
                    row_of(map_width, i),
                ),
        ),
    }
}

/// Whether `after` is what trying to set `vault` makes of `before`: the
/// vault laid in the first pocket that is open for it, or nothing changed
/// where none is.
pub open spec fn vault_tried(
    before: VaultProgress,
    after: VaultProgress,
    map_width: int,
    map_height: int,
    vault: VaultPlan,
) -> bool {
    exists|found: Option<Position>| #[trigger]
        first_pocket(
            before.canvas.tiles,
            before.claimed,
            map_width,
            map_height,
            vault.width as int,
            vault.height as int,
            found,
        ) && after == match found {
            Some(pos) => vault_laid(before, map_width, map_height, vault, pos),
            None => before,
        }
}

/// Whether `after` is what `n` tries, each with one of `possible`, make
/// of `start`.
pub open spec fn vaults_tried(
    start: VaultProgress,
    after: VaultProgress,
    map_width: int,
    map_height: int,
    possible: Seq<VaultPlan>,
    n: int,
) -> bool
    decreases n,
{
    if n <= 0 {
        after == start
    } else {
        exists|mid: VaultProgress, v: int|
            0 <= v < possible.len() && vaults_tried(
                start,
                mid,
                map_width,
                map_height,
                possible,
                n - 1,
            ) && #[trigger] vault_tried(mid, after, map_width, map_height, possible[v])
    }
}

/// How many tries are made on `count` of the die where `possible` vaults
/// are for the depth.
pub open spec fn tries_for(count: int, possible: int) -> int {
    if count <= possible {
        count
    } else {
        possible
    }
}

/// The progress before any vault is set.
pub open spec fn nothing_claimed(data: &BuildData) -> VaultProgress {
    VaultProgress {
        canvas: canvas_of(data),
        claimed: Seq::new(data.map.tiles@.len(), |i: int| false),
    }
}

/// Whether `after` is what the setting of vaults makes of `before` on
/// `roll` of the die that decides whether any is set, and `count` of the
/// die that decides how many: nothing for a low roll at a low depth, or
/// where no vault is for the depth; else as many tries as the die says,
/// though no more than there are vaults for the depth.
pub open spec fn vaults_applied(before: &BuildData, after: &BuildData, roll: int,
    count: int) -> bool {
    let possible = vaults_at(before.map.depth as int, 3);
    if roll + before.map.depth < 4 || possible.len() == 0 {
        canvas_of(after) == canvas_of(before)
    } else {
        exists|claimed: Seq<bool>| #[trigger]
            vaults_tried(
                nothing_claimed(before),
                VaultProgress { canvas: canvas_of(after), claimed },
                before.map.width as int,
                before.map.height as int,
                possible,
                tries_for(count, possible.len() as int),
            )
    }
}

/// The glyph that a character code of a layered image stands for: the
/// character of the code's last byte.
pub open spec fn glyph_of_code(code: u32) -> char {
    ((code % 256) as u8) as char
}

/// The glyphs of a layer's cells.
pub open spec fn layer_glyphs(cells: Seq<u32>) -> Seq<char> {
    Seq::new(cells.len(), |i: int| glyph_of_code(cells[i]))
}

/// How a layer is laid on `map`: from the map's first cell on, as far as
/// the map reaches.
pub open spec fn layer_footprint(layer: &RexLayer, map: &TileMap) -> Footprint {
    Footprint {
        width: layer.width,
        height: layer.height,
        offset_x: 0,
        offset_y: 0,
        x_min: 0,
        y_min: 0,
        x_max: map.width,
        y_max: map.height,
    }
}

/// The canvas after the first `n` layers were laid on the map, one over
/// the other.
pub open spec fn layered(canvas: Canvas, map: &TileMap, layers: Seq<RexLayer>, n: int) -> Canvas
    decreases n,
{
    if n <= 0 {
        canvas
    } else {
        stamped(
            layered(canvas, map, layers, n - 1),
            map.width as int,
            map.height as int,
            layer_glyphs(layers[n - 1].cells@),
            layer_footprint(&layers[n - 1], map),
            layers[n - 1].width * layers[n - 1].height,
        )
    }
}

/// Whether no layer is wider or higher than a map can be.
pub open spec fn layers_ok(layers: Seq<RexLayer>) -> bool {
    forall|i: int|
        0 <= i < layers.len() ==> (#[trigger] layers[i]).width <= MAX_DIMENSION && layers[i].height
            <= MAX_DIMENSION
}

/// Whether the stage's templates are small enough to be laid on a map.
pub open spec fn templates_ok(mode: &PrefabMode) -> bool {
    match mode {
        PrefabMode::RexLevel { image } => layers_ok(image.layers@),
        PrefabMode::Constant { level } => level.width <= MAX_DIMENSION && level.height
            <= MAX_DIMENSION,
        PrefabMode::Sectional { section } => section.width <= MAX_DIMENSION && section.height
            <= MAX_DIMENSION,
        PrefabMode::RoomVaults => true,
    }
}

/// The canvas after a whole-level template was laid on that of `before`.
pub open spec fn level_canvas(level: &PrefabLevel, before: &BuildData) -> Canvas {
    stamped(
        canvas_of(before),
        before.map.width as int,
        before.map.height as int,
        glyphs_of(level.template@, level.template@.len() as int),
        level_footprint(level, &before.map),
        level.width * level.height,
    )
}

/// The canvas after a section was laid on that of `before`: the spawn
/// requests on the section's part of the map are dropped, then the
/// section's template is laid.
pub open spec fn section_canvas(section: &PrefabSection, before: &BuildData) -> Canvas {
    let map = &before.map;
    let x = section_x(section, map);
    let y = section_y(section, map);
    let cleared = Canvas {
        tiles: map.tiles@,
        start: before.start,
        spawns: spawns_outside(
            spawn_view(before.spawn_list@),
            before.spawn_list@.len() as int,
            map.width as int,
            x,
            y,
            x + section.width,
            y + section.height,
        ),
    };
    let template = padded(section.template@, SECTION_LINE_WIDTH as int);
    stamped(
        cleared,
        map.width as int,
        map.height as int,
        glyphs_of(template, template.len() as int),
        section_footprint(section, map),
        section.width * section.height,
    )
}

/// Whether the canvas of `after` is what the stage's mode makes of that
/// of `before`: the layers of the image laid one over the other, the
/// level or the section laid, or vaults set as the dice say.
pub open spec fn mode_laid(mode: &PrefabMode, before: &BuildData, after: &BuildData) -> bool {
    match mode {
        PrefabMode::RexLevel { image } => canvas_of(after) == layered(
            canvas_of(before),
            &before.map,
            image.layers@,
            image.layers@.len() as int,
        ),
        PrefabMode::Constant { level } => canvas_of(after) == level_canvas(level, before),
        PrefabMode::Sectional { section } => canvas_of(after) == section_canvas(section, before),
        PrefabMode::RoomVaults => exists|roll: int, count: int|
            1 <= roll <= 6 && 1 <= count <= 3 && #[trigger] vaults_applied(
                before,
                after,
                roll,
                count,
            ),
    }
}

impl PrefabBuilder {
    /// Lays the layers of an image on the map, one over the other.
    pub fn load_rex_map(image: &RexImage, build_data: &mut BuildData)
        requires
            old(build_data).wf(),
            layers_ok(image.layers@),
        ensures
            final(build_data).wf(),
            final(build_data).map.same_but_tiles(&old(build_data).map),
            canvas_of(final(build_data)) == layered(
                canvas_of(old(build_data)),
                &old(build_data).map,
                image.layers@,
                image.layers@.len() as int,
            ),
            final(build_data).rooms == old(build_data).rooms,
            final(build_data).history == old(build_data).history,
            final(build_data).record_history == old(build_data).record_history,
    {
        let mut n: usize = 0;
        while n < image.layers.len()
            invariant
                build_data.wf(),
                build_data.map.same_but_tiles(&old(build_data).map),
                layers_ok(image.layers@),
                n <= image.layers@.len(),
                canvas_of(build_data) == layered(
                    canvas_of(old(build_data)),
                    &old(build_data).map,
                    image.layers@,
                    n as int,
                ),
                build_data.rooms == old(build_data).rooms,
                build_data.history == old(build_data).history,
                build_data.record_history == old(build_data).record_history,
            decreases image.layers@.len() - n,
        {
            let layer = &image.layers[n];
            let mut glyphs: Vec<char> = Vec::new();
            let mut i: usize = 0;
            while i < layer.cells.len()
                invariant
                    i <= layer.cells@.len(),
                    glyphs@.len() == i,
                    forall|k: int| 0 <= k < i ==> glyphs@[k] == glyph_of_code(layer.cells@[k]),
                decreases layer.cells@.len() - i,
            {
                glyphs.push(((layer.cells[i] % 256) as u8) as char);
                i += 1;
            }
            proof {
                assert(glyphs@ =~= layer_glyphs(layer.cells@));
            }
            let print = Footprint {
                width: layer.width,
                height: layer.height,
                offset_x: 0,
                offset_y: 0,
                x_min: 0,
                y_min: 0,
                x_max: build_data.map.width,
                y_max: build_data.map.height,
            };
            assert(print == layer_footprint(layer, &old(build_data).map));
            PrefabBuilder::stamp(&glyphs, print, build_data);
            n += 1;
        }
    }

    /// Sets vaults into open pockets of the map: by the dice none at all,
    /// or up to three of those that the depth allows, each into the first
    /// pocket that is open for it.
    pub fn apply_room_vaults(rng: &mut RandomNumberGenerator, build_data: &mut BuildData)
        requires
            old(build_data).wf(),
        ensures
            final(build_data).wf(),
            final(build_data).map.same_but_tiles(&old(build_data).map),
            final(build_data).rooms == old(build_data).rooms,
            final(build_data).extends_history(old(build_data)),
            old(build_data).record_history ==> final(build_data).history@.len()
                > old(build_data).history@.len(),
            exists|roll: int, count: int|
                1 <= roll <= 6 && 1 <= count <= 3 && #[trigger] vaults_applied(
                    old(build_data),
                    final(build_data),
                    roll,
                    count,
                ),
            forall|i: int|
                0 <= i < final(build_data).map.tiles@.len()
                    ==> #[trigger] final(build_data).map.tiles@[i]
                    == old(build_data).map.tiles@[i] || (old(build_data).map.tiles@[i]
                    == TileType::Floor && is_interior(
                    old(build_data).map.width as int,
                    old(build_data).map.height as int,
                    col_of(old(build_data).map.width as int, i),
                    row_of(old(build_data).map.width as int, i),
                )),
            old(build_data).map.border_closed() ==> final(build_data).map.border_closed(),
            spawns_valid(old(build_data).map.tiles@, old(build_data).spawn_list@) ==> spawns_valid(
                final(build_data).map.tiles@,
                final(build_data).spawn_list@,
            ),
    {
        PrefabBuilder::apply_previous_iteration(None, build_data);
        let ghost w = build_data.map.width as int;
        let ghost h = build_data.map.height as int;
        let ghost before = build_data.map.tiles@;
        let ghost possible = vaults_at(build_data.map.depth as int, 3);
        let first_roll = rng.roll_dice(1, 6);
        if (first_roll as i64) + (build_data.map.depth as i64) < 4 {
            proof {
                assert(vaults_applied(old(build_data), build_data, first_roll as int, 1));
            }
            return ;
        }
        let mut master_vault_list: Vec<PrefabRoom> = Vec::new();
        master_vault_list.push(crate::prefab_builder::prefab_rooms::not_a_trap());
        master_vault_list.push(crate::prefab_builder::prefab_rooms::checkerboard());
        master_vault_list.push(crate::prefab_builder::prefab_rooms::silly_smile());
        let mut possible_vaults: Vec<PrefabRoom> = Vec::new();
        let mut v: usize = 0;
        while v < master_vault_list.len()
            invariant
                v <= master_vault_list@.len(),
                possible_vaults@.len() <= v,
                master_vault_list@.len() == 3,
                forall|k: int|
                    0 <= k < 3 ==> plan_of(&#[trigger] master_vault_list@[k]) == stock_vaults()[k],
                possible_vaults@.len() == vaults_at(build_data.map.depth as int, v as int).len(),
                forall|k: int|
                    0 <= k < possible_vaults@.len() ==> plan_of(&#[trigger] possible_vaults@[k])
                        == vaults_at(build_data.map.depth as int, v as int)[k],
                forall|k: int|
                    0 <= k < master_vault_list@.len() ==> (#[trigger] master_vault_list@[k]).width
                        <= 6 && master_vault_list@[k].height <= 6,
                forall|k: int|
                    0 <= k < possible_vaults@.len() ==> (#[trigger] possible_vaults@[k]).width <= 6
                        && possible_vaults@[k].height <= 6,
            decreases master_vault_list@.len() - v,
        {
            let vault = master_vault_list[v];
            if build_data.map.depth >= vault.first_depth && build_data.map.depth
                <= vault.last_depth {
                possible_vaults.push(vault);
            }
            v += 1;
        }
        if possible_vaults.len() == 0 {
            proof {
                assert(vaults_applied(old(build_data), build_data, first_roll as int, 1));
            }
            return ;
        }
        let mut claimed: HashSet<usize> = HashSet::new();
        let ghost tile_count = build_data.map.tiles@.len();
        let rolled = rng.roll_dice(1, master_vault_list.len() as i32);
        let ghost start = nothing_claimed(old(build_data));
        proof {
            assert(claim_mask(claimed@, tile_count) =~= start.claimed);
            assert(canvas_of(build_data) == start.canvas);
        }
        let n_vaults: i32 = if rolled <= possible_vaults.len() as i32 {
            rolled
        } else {
            possible_vaults.len() as i32
        };
        let mut placed: i32 = 0;
        while placed < n_vaults
            invariant
                0 <= placed <= n_vaults,
                possible == vaults_at(build_data.map.depth as int, 3),
                possible_vaults@.len() == possible.len(),
                forall|k: int|
                    0 <= k < possible_vaults@.len() ==> plan_of(&#[trigger] possible_vaults@[k])
                        == possible[k],
                vaults_tried(
                    start,
                    VaultProgress {
                        canvas: canvas_of(build_data),
                        claimed: claim_mask(claimed@, tile_count),
                    },
                    w,
                    h,
                    possible,
                    placed as int,
                ),
                build_data.wf(),
                build_data.map.same_but_tiles(&old(build_data).map),
                build_data.rooms == old(build_data).rooms,
                build_data.extends_history(old(build_data)),
                old(build_data).record_history ==> build_data.history@.len()
                    > old(build_data).history@.len(),
                w == build_data.map.width,
                h == build_data.map.height,
                before == old(build_data).map.tiles@,
                tile_count == build_data.map.tiles@.len(),
                1 <= possible_vaults@.len() <= 3,
                forall|k: int|
                    0 <= k < possible_vaults@.len() ==> (#[trigger] possible_vaults@[k]).width <= 6
                        && possible_vaults@[k].height <= 6,
                forall|i: int|
                    0 <= i < tile_count && #[trigger] claim_mask(claimed@, tile_count)[i]
                        ==> before[i]
                        == TileType::Floor && is_interior(w, h, col_of(w, i), row_of(w, i)),
                forall|i: int|
                    0 <= i < tile_count && !claim_mask(claimed@, tile_count)[i]
                        ==> #[trigger] build_data.map.tiles@[i] == before[i],
                spawns_valid(old(build_data).map.tiles@, old(build_data).spawn_list@)
                    ==> spawns_valid(build_data.map.tiles@, build_data.spawn_list@),
            decreases n_vaults - placed,
        {
            let vidx: usize = if possible_vaults.len() == 1 {
                0
            } else {
                (rng.roll_dice(1, possible_vaults.len() as i32) - 1) as usize
            };
            let vault = possible_vaults[vidx];
            let ghost mid = VaultProgress {
                canvas: canvas_of(build_data),
                claimed: claim_mask(claimed@, tile_count),
            };
            let found = PrefabBuilder::find_pocket(
                &build_data.map,
                &claimed,
                vault.width,
                vault.height,
            );
            proof {
                assert(first_pocket(
                    mid.canvas.tiles,
                    mid.claimed,
                    w,
                    h,
                    vault.width as int,
                    vault.height as int,
                    found,
                ));
            }
            match found {
                Some(pos) => {
                    let ghost tiles_then = build_data.map.tiles@;
                    let ghost claimed_then = claim_mask(claimed@, tile_count);
                    let ghost tiles_spawns = build_data.spawn_list@.len();
                    let print = Ghost(vault_footprint(&vault, pos));
                    proof {
                        assert forall|i: int|
                            0 <= i < tiles_then.len() && print@.covers(
                                col_of(w, i),
                                row_of(w, i),
                            ) implies tiles_then[i] == TileType::Floor && !claimed_then[i]
                            && is_interior(w, h, col_of(w, i), row_of(w, i)) by {
                            lemma_index_cell(w, h, i);
                            let vx = col_of(w, i) - pos.x;
                            let vy = row_of(w, i) - pos.y;
                            assert(cell_index(w, pos.x + vx, pos.y + vy) == i);
                        }
                    }
                    PrefabBuilder::place_vault(&vault, pos, &mut claimed, build_data);
                    proof {
                        assert(vault_footprint(&vault, pos) == plan_footprint(
                            plan_of(&vault),
                            pos,
                        ));
                        assert(mid.canvas.spawns.len() == tiles_spawns);
                        let laid = vault_laid(mid, w, h, plan_of(&vault), pos);
                        assert(claim_mask(claimed@, tile_count) =~= laid.claimed);
                        assert(canvas_of(build_data) == laid.canvas);
                    }
                    proof {
                        assert forall|i: int|
                            0 <= i < tile_count && #[trigger] claim_mask(
                                claimed@,
                                tile_count,
                            )[i] implies before[i]
                            == TileType::Floor && is_interior(w, h, col_of(w, i), row_of(w, i)) by {
                            if !claimed_then[i] {
                                assert(print@.covers(col_of(w, i), row_of(w, i)));
                                assert(tiles_then[i] == before[i]);
                            }
                        }
                        assert forall|i: int|
                            0 <= i < tile_count && !claim_mask(claimed@, tile_count)[i]
                            implies #[trigger] build_data.map.tiles@[i] == before[i] by {
                            assert(!claimed_then[i]);
                            assert(tiles_then[i] == before[i]);
                        }
                    }
                },
                None => {},
            }
            proof {
                let now = VaultProgress {
                    canvas: canvas_of(build_data),
                    claimed: claim_mask(claimed@, tile_count),
                };
                assert(now == match found {
                    Some(pos) => vault_laid(mid, w, h, plan_of(&vault), pos),
                    None => mid,
                });
                assert(vault_tried(mid, now, w, h, possible[vidx as int]));
                assert(vaults_tried(start, mid, w, h, possible, placed + 1 - 1));
                assert(vaults_tried(start, now, w, h, possible, placed + 1));
            }
            placed += 1;
        }
        proof {
            assert(vaults_tried(
                start,
                VaultProgress {
                    canvas: canvas_of(build_data),
                    claimed: claim_mask(claimed@, tile_count),
                },
                w,
                h,
                possible,
                n_vaults as int,
            ));
            assert(possible == vaults_at(old(build_data).map.depth as int, 3));
            assert(possible.len() > 0);
            assert(first_roll + old(build_data).map.depth >= 4);
            assert(n_vaults == tries_for(rolled as int, possible.len() as int));
            assert(w == old(build_data).map.width && h == old(build_data).map.height);
            assert(vaults_applied(
                old(build_data),
                build_data,
                first_roll as int,
                rolled as int,
            ));
        }
        proof {
            if old(build_data).map.border_closed() {
                assert forall|i: int|
                    0 <= i < build_data.map.tiles@.len() && crate::tile_map::on_border(
                        w,
                        h,
                        col_of(w, i),
                        row_of(w, i),
                    ) implies #[trigger] build_data.map.tiles@[i] == TileType::Wall by {
                    assert(before[i] == TileType::Wall);
                    if claim_mask(claimed@, tile_count)[i] {
                    }
                }
            }
        }
    }

    /// Lays what the stage's mode asks for on the map and takes a
    /// snapshot.
    pub fn build(&mut self, rng: &mut RandomNumberGenerator, build_data: &mut BuildData)
        requires
            old(build_data).wf(),
            templates_ok(&old(self).mode),
        ensures
            final(self).mode == old(self).mode,
            final(build_data).wf(),
            final(build_data).map.same_but_tiles(&old(build_data).map),
            final(build_data).rooms == old(build_data).rooms,
            final(build_data).extends_history(old(build_data)),
            mode_laid(&old(self).mode, old(build_data), final(build_data)),
            old(build_data).record_history ==> final(build_data).history@.len()
                > old(build_data).history@.len() && final(build_data).history@.last().tiles@
                == final(build_data).map.tiles@,
            old(self).mode is RoomVaults && old(build_data).map.border_closed()
                ==> final(build_data).map.border_closed(),
            (old(self).mode is RoomVaults || old(self).mode is Sectional) && spawns_valid(
                old(build_data).map.tiles@,
                old(build_data).spawn_list@,
            ) ==> spawns_valid(final(build_data).map.tiles@, final(build_data).spawn_list@),
    {
        match &self.mode {
            PrefabMode::RexLevel { image } => PrefabBuilder::load_rex_map(image, build_data),
            PrefabMode::Constant { level } => PrefabBuilder::load_ascii_map(level, build_data),
            PrefabMode::Sectional { section } => PrefabBuilder::apply_sectional(
                section,
                build_data,
            ),
            PrefabMode::RoomVaults => PrefabBuilder::apply_room_vaults(rng, build_data),
        }
        let ghost laid = *build_data;
        build_data.take_snapshot();
        proof {
            assert(canvas_of(build_data) == canvas_of(&laid));
            if self.mode is RoomVaults {
                let (roll, count) = choose|roll: int, count: int|
                    1 <= roll <= 6 && 1 <= count <= 3 && #[trigger] vaults_applied(
                        old(build_data),
                        &laid,
                        roll,
                        count,
                    );
                assert(vaults_applied(old(build_data), build_data, roll, count));
            }
        }
    }

    /// Tells whether no layer of the image is wider or higher than a map
    /// can be.
    pub fn check_layers(image: &RexImage) -> (ok: bool)
        ensures
            ok == layers_ok(image.layers@),
    {
        let mut i: usize = 0;
        while i < image.layers.len()
            invariant
                i <= image.layers@.len(),
                forall|k: int|
                    0 <= k < i ==> (#[trigger] image.layers@[k]).width <= MAX_DIMENSION
                        && image.layers@[k].height <= MAX_DIMENSION,
            decreases image.layers@.len() - i,
        {
            if image.layers[i].width > 16384 || image.layers[i].height > 16384 {
                assert(!(image.layers@[i as int].width <= MAX_DIMENSION
                    && image.layers@[i as int].height <= MAX_DIMENSION));
                return false;
            }
            i += 1;
        }
        true
    }

    /// Tells whether the stage's templates are small enough to be laid on
    /// a map.
    pub fn check_templates(&self) -> (ok: bool)
        ensures
            ok == templates_ok(&self.mode),
    {
        match &self.mode {
            PrefabMode::RexLevel { image } => PrefabBuilder::check_layers(image),
            PrefabMode::Constant { level } => level.width <= 16384 && level.height <= 16384,
            PrefabMode::Sectional { section } => section.width <= 16384 && section.height
                <= 16384,
            PrefabMode::RoomVaults => true,
        }
    }
}

impl InitialMapBuilder for PrefabBuilder {
    open spec fn initial_outcome(
        &self,
        before: &BuildData,
        after: &BuildData,
        result: Result<(), BuildError>,
    ) -> bool {
        match result {
            Err(error) => error == BuildError::BadTemplate && !templates_ok(&self.mode),
            Ok(_) => {
                &&& templates_ok(&self.mode)
                &&& after.map.same_but_tiles(&before.map)
                &&& mode_laid(&self.mode, before, after)
                &&& after.rooms == before.rooms
                &&& before.record_history ==> after.history@.len() > before.history@.len()
                    && after.history@.last().tiles@ == after.map.tiles@
            },
        }
    }

    fn build_map(&mut self, rng: &mut RandomNumberGenerator, build_data: &mut BuildData) -> (result:
        Result<(), BuildError>) {
        if !self.check_templates() {
            return Err(BuildError::BadTemplate);
        }
        self.build(rng, build_data);
        Ok(())
    }
}

impl MetaMapBuilder for PrefabBuilder {
    open spec fn meta_outcome(
        &self,
        before: &BuildData,
        after: &BuildData,
        result: Result<(), BuildError>,
    ) -> bool {
        match result {
            Err(error) => error == BuildError::BadTemplate && !templates_ok(&self.mode),
            Ok(_) => {
                &&& templates_ok(&self.mode)
                &&& after.map.same_but_tiles(&before.map)
                &&& mode_laid(&self.mode, before, after)
                &&& after.rooms == before.rooms
                &&& before.record_history ==> after.history@.len() > before.history@.len()
                    && after.history@.last().tiles@ == after.map.tiles@
            },
        }
    }

    fn build_map(&mut self, rng: &mut RandomNumberGenerator, build_data: &mut BuildData) -> (result:
        Result<(), BuildError>) {
        if !self.check_templates() {
            return Err(BuildError::BadTemplate);
        }
        self.build(rng, build_data);
        Ok(())
    }
}

/// How a whole-level template is laid on `map`.
pub open spec fn level_footprint(level: &PrefabLevel, map: &TileMap) -> Footprint {
    Footprint {
        width: level.width,
        height: level.height,
        offset_x: 0,
        offset_y: 0,
        x_min: 1,
        y_min: 1,
        x_max: map.width,
        y_max: map.height,
    }
}

} // verus!
