use crate::build_data::{BuildData, BuildError};
use crate::chain::InitialMapBuilder;
use crate::common::{digger_range, paint, painted, staggered, Digger, Symmetry};
use crate::random::fresh_rng;
use crate::tile_map::{
    cell_index, col_of, count_of, is_interior, lemma_cell_unique, row_of, TileMap, TileType,
};
use rltk::RandomNumberGenerator;
use vstd::prelude::*;

verus! {

/// Sets where drunkards start.
#[derive(PartialEq, Eq, Copy, Clone, Debug, Structural)]
pub enum DrunkSpawnMode {
    StartingPoint,
    Random,
}

/// Controls how the drunkards dig: where they start, how many steps each
/// takes, how many tiles in a hundred are to be floor in the end, and with
/// which brush and symmetry they paint.
#[derive(Copy, Clone)]
pub struct DrunkardSettings {
    pub spawn_mode: DrunkSpawnMode,
    pub lifespan: i32,
    pub floor_percent: u32,
    pub brush_size: i32,
    pub symmetry: Symmetry,
}

/// How many drunkards the stage sends before it gives up on its target.
pub const MAX_DIGGERS: u32 = 100_000;

/// Builder to construct a drunkards' walk map.
pub struct DrunkardsWalkBuilder {
    pub settings: DrunkardSettings,
}

/// Digger that staggers around the map for as many steps as it has to
/// live, painting where it stands.
pub struct DrunkDigger {
    pub x: i32,
    pub y: i32,
    pub idx: usize,
    pub did_something: bool,
    pub settings: DrunkardSettings,
}

/// Whether `after` is `before` but for cells off the border that became
/// floor or carry the digger's mark, the down stairs.
pub open spec fn marked_dug(
    before: Seq<TileType>,
    after: Seq<TileType>,
    width: int,
    height: int,
) -> bool {
    &&& after.len() == before.len()
    &&& forall|i: int|
        0 <= i < before.len() ==> #[trigger] after[i] == before[i] || (is_interior(
            width,
            height,
            col_of(width, i),
            row_of(width, i),
        ) && (after[i] == TileType::Floor || after[i] == TileType::DownStairs))
}

/// Whether `after` is `before` but for tiles that became floor: cells off
/// the border, and what were down stairs.
pub open spec fn walked(before: Seq<TileType>, after: Seq<TileType>, width: int,
    height: int) -> bool {
    &&& after.len() == before.len()
    &&& forall|i: int|
        0 <= i < before.len() ==> #[trigger] after[i] == before[i] || (after[i] == TileType::Floor
            && (is_interior(width, height, col_of(width, i), row_of(width, i)) || before[i]
            == TileType::DownStairs))
}

/// How many floor tiles a map of `total` tiles is to have for
/// `floor_percent` in a hundred.
pub open spec fn desired_floor(total: int, floor_percent: int) -> int {
    total * floor_percent / 100
}

/// The tiles after a stroke of the brush at `(x, y)`: what the stroke
/// paints is floor.
pub open spec fn brushed(
    tiles: Seq<TileType>,
    mode: Symmetry,
    brush_size: int,
    width: int,
    height: int,
    x: int,
    y: int,
) -> Seq<TileType> {
    Seq::new(
        tiles.len(),
        |i: int|
            if painted(mode, brush_size, width, height, x, y, col_of(width, i), row_of(width, i)) {
                TileType::Floor
            } else {
                tiles[i]
            },
    )
}

/// The tiles and the place of a drunkard after the first `k` of the steps
/// that `rolls` ask for, from `(x, y)` on `tiles`: before each step it
/// paints where it stands and marks the tile that it stands on with the
/// down stairs.
pub open spec fn drunk_steps(
    settings: DrunkardSettings,
    width: int,
    height: int,
    tiles: Seq<TileType>,
    x: int,
    y: int,
    rolls: Seq<int>,
    k: int,
) -> (Seq<TileType>, int, int)
    decreases k,
{
    if k <= 0 {
        (tiles, x, y)
    } else {
        let so_far = drunk_steps(settings, width, height, tiles, x, y, rolls, k - 1);
        let stroke = brushed(
            so_far.0,
            settings.symmetry,
            settings.brush_size as int,
            width,
            height,
            so_far.1,
            so_far.2,
        );
        let to = staggered(width, height, so_far.1, so_far.2, rolls[k - 1]);
        (
            stroke.update(cell_index(width, so_far.1, so_far.2), TileType::DownStairs),
            to.0,
            to.1,
        )
    }
}

/// Whether `rolls` are as many rolls of a four-sided die as a drunkard
/// with these settings has steps to take.
pub open spec fn lifelong(settings: DrunkardSettings, rolls: Seq<int>) -> bool {
    &&& rolls.len() == if settings.lifespan > 0 {
        settings.lifespan as int
    } else {
        0
    }
    &&& forall|k: int| 0 <= k < rolls.len() ==> 1 <= #[trigger] rolls[k] <= 4
}

/// What the first steps make does not depend on the rolls after them.
pub proof fn lemma_steps_prefix(
    settings: DrunkardSettings,
    width: int,
    height: int,
    tiles: Seq<TileType>,
    x: int,
    y: int,
    short: Seq<int>,
    long: Seq<int>,
    k: int,
)
    requires
        0 <= k <= short.len() <= long.len(),
        forall|i: int| 0 <= i < short.len() ==> short[i] == long[i],
    ensures
        drunk_steps(settings, width, height, tiles, x, y, long, k) == drunk_steps(
            settings,
            width,
            height,
            tiles,
            x,
            y,
            short,
            k,
        ),
    decreases k,
{
    if k > 0 {
        lemma_steps_prefix(settings, width, height, tiles, x, y, short, long, k - 1);
    }
}

/// The tiles with every mark of a drunkard, the down stairs, turned into
/// floor.
pub open spec fn unmarked(tiles: Seq<TileType>) -> Seq<TileType> {
    Seq::new(
        tiles.len(),
        |i: int|
            if tiles[i] == TileType::DownStairs {
                TileType::Floor
            } else {
                tiles[i]
            },
    )
}

/// Whether the `number`-th drunkard may start on `(x, y)`: the first of
/// them, and all of them where the settings say so, in the middle of the
/// map; the others wherever a digger may stand.
pub open spec fn drunk_start(
    settings: DrunkardSettings,
    number: int,
    width: int,
    height: int,
    x: int,
    y: int,
) -> bool {
    if number <= 1 || settings.spawn_mode == DrunkSpawnMode::StartingPoint {
        x == width / 2 && y == height / 2
    } else {
        digger_range(width, height, x, y)
    }
}

/// Whether `after` is what the `number`-th drunkard makes of `before`:
/// from where it may start it takes the steps of its life, and its marks
/// are then turned into floor.
pub open spec fn drunk_sent(
    settings: DrunkardSettings,
    width: int,
    height: int,
    before: Seq<TileType>,
    after: Seq<TileType>,
    number: int,
) -> bool {
    exists|x: int, y: int, rolls: Seq<int>|
        drunk_start(settings, number, width, height, x, y) && lifelong(settings, rolls) && after
            == unmarked(
            (#[trigger] drunk_steps(
                settings,
                width,
                height,
                before,
                x,
                y,
                rolls,
                rolls.len() as int,
            )).0,
        )
}

/// Whether `last` is what `n` drunkards, one after the other, make of
/// `first`, each sent because the map had less floor than it is to have.
pub open spec fn drunkards_sent(
    settings: DrunkardSettings,
    width: int,
    height: int,
    first: Seq<TileType>,
    last: Seq<TileType>,
    n: int,
) -> bool
    decreases n,
{
    if n <= 0 {
        last == first
    } else {
        exists|mid: Seq<TileType>|
            drunkards_sent(settings, width, height, first, mid, n - 1) && count_of(
                mid,
                TileType::Floor,
                mid.len() as int,
            ) < desired_floor(width * height, settings.floor_percent as int)
                && #[trigger] drunk_sent(settings, width, height, mid, last, n)
    }
}

impl Digger for DrunkDigger {
    open spec fn position(&self) -> (i32, i32) {
        (self.x, self.y)
    }

    fn get_position(&self) -> (p: (i32, i32)) {
        (self.x, self.y)
    }

    fn set_position(&mut self, x: i32, y: i32)
        ensures
            final(self).idx == old(self).idx,
            final(self).did_something == old(self).did_something,
            final(self).settings == old(self).settings,
    {
        self.x = x;
        self.y = y;
    }

    /// Moves the drunk around the map one tile at a time in a random
    /// direction until it has run out of life. Each tile it stands on is
    /// painted and then marked with the down stairs, to tell what this
    /// digger dug from what was floor before.
    fn stagger(&mut self, map: &mut TileMap, rng: &mut RandomNumberGenerator) -> (before: (
        i32,
        i32,
    ))
        ensures
            marked_dug(
                old(map).tiles@,
                final(map).tiles@,
                old(map).width as int,
                old(map).height as int,
            ),
            final(self).settings.lifespan <= 0,
            exists|rolls: Seq<int>|
                lifelong(old(self).settings, rolls) && final(map).tiles@ == (#[trigger] drunk_steps(
                    old(self).settings,
                    old(map).width as int,
                    old(map).height as int,
                    old(map).tiles@,
                    old(self).x as int,
                    old(self).y as int,
                    rolls,
                    rolls.len() as int,
                )).0,
    {
        let ghost w = map.width as int;
        let ghost h = map.height as int;
        let mut prev_position: (i32, i32) = self.get_position();
        let settings = self.settings;
        let mut lifespan = settings.lifespan;
        let ghost mut rolls: Seq<int> = Seq::empty();
        let ghost first = map.tiles@;
        let ghost x0 = self.x as int;
        let ghost y0 = self.y as int;
        while lifespan > 0
            invariant
                settings == old(self).settings,
                first == old(map).tiles@,
                x0 == old(self).x,
                y0 == old(self).y,
                lifespan <= settings.lifespan,
                settings.lifespan > 0 ==> lifespan >= 0,
                settings.lifespan > 0 ==> rolls.len() == settings.lifespan - lifespan,
                settings.lifespan <= 0 ==> rolls.len() == 0,
                forall|k: int| 0 <= k < rolls.len() ==> 1 <= #[trigger] rolls[k] <= 4,
                drunk_steps(settings, w, h, first, x0, y0, rolls, rolls.len() as int) == (
                    map.tiles@,
                    self.x as int,
                    self.y as int,
                ),
                map.wf(),
                map.same_but_tiles(old(map)),
                w == map.width,
                h == map.height,
                digger_range(w, h, self.x as int, self.y as int),
                digger_range(w, h, prev_position.0 as int, prev_position.1 as int),
                marked_dug(old(map).tiles@, map.tiles@, w, h),
            decreases lifespan,
        {
            self.idx = map.xy_idx(self.x, self.y);
            if map.tiles[self.idx] == TileType::Wall {
                self.did_something = true;
            }
            let ghost tiles_0 = map.tiles@;
            let ghost tiles_then = map.tiles@;
            let ghost x_then = self.x as int;
            let ghost y_then = self.y as int;
            paint(map, settings.symmetry, settings.brush_size, self.x, self.y);
            proof {
                lemma_cell_unique(w, h, self.x as int, self.y as int);
                assert(map.tiles@ =~= brushed(
                    tiles_then,
                    settings.symmetry,
                    settings.brush_size as int,
                    w,
                    h,
                    x_then,
                    y_then,
                ));
            }
            map.tiles[self.idx] = TileType::DownStairs;
            proof {
                let tiles_1 = map.tiles@;
                assert forall|i: int| 0 <= i < tiles_1.len() implies #[trigger] tiles_1[i]
                    == old(map).tiles@[i] || (is_interior(w, h, col_of(w, i), row_of(w, i))
                    && (tiles_1[i]
                    == TileType::Floor || tiles_1[i] == TileType::DownStairs)) by {
                    assert(tiles_0[i] == old(map).tiles@[i] || (is_interior(
                        w,
                        h,
                        col_of(w, i),
                        row_of(w, i),
                    ) && (tiles_0[i] == TileType::Floor || tiles_0[i] == TileType::DownStairs)));
                }
            }
            prev_position = self.get_position();
            self.stagger_direction(map, rng);
            lifespan -= 1;
            proof {
                let roll = choose|roll: int|
                    1 <= roll <= 4 && (self.x as int, self.y as int) == #[trigger] staggered(
                        w,
                        h,
                        x_then,
                        y_then,
                        roll,
                    );
                let rolls_then = rolls;
                rolls = rolls_then.push(roll);
                lemma_steps_prefix(
                    settings,
                    w,
                    h,
                    first,
                    x0,
                    y0,
                    rolls_then,
                    rolls,
                    rolls_then.len() as int,
                );
                assert(rolls[rolls.len() - 1] == roll);
            }
        }
        proof {
            assert(lifelong(settings, rolls));
        }
        self.settings = DrunkardSettings {
            spawn_mode: settings.spawn_mode,
            lifespan,
            floor_percent: settings.floor_percent,
            brush_size: settings.brush_size,
            symmetry: settings.symmetry,
        };
        prev_position
    }
}

impl DrunkDigger {
    /// Creates and returns a new [`DrunkDigger`].
    pub fn new(x: i32, y: i32, settings: DrunkardSettings) -> (digger: DrunkDigger)
        ensures
            digger.x == x,
            digger.y == y,
            !digger.did_something,
            digger.settings == settings,
    {
        DrunkDigger { x, y, idx: 0, did_something: false, settings }
    }
}

impl DrunkardsWalkBuilder {
    /// A stage that digs with the given settings.
    pub fn new(settings: DrunkardSettings) -> (stage: Box<DrunkardsWalkBuilder>)
        ensures
            stage.settings == settings,
    {
        Box::new(DrunkardsWalkBuilder { settings })
    }

    /// The stage for the roll of a five-sided die.
    pub fn preset(roll: i32) -> (stage: Box<DrunkardsWalkBuilder>)
        ensures
            stage.settings == match roll {
                1 => open_area_settings(),
                2 => open_halls_settings(),
                3 => winding_passages_settings(),
                4 => fat_passages_settings(),
                _ => fearful_symmetry_settings(),
            },
    {
        match roll {
            1 => DrunkardsWalkBuilder::open_area(),
            2 => DrunkardsWalkBuilder::open_halls(),
            3 => DrunkardsWalkBuilder::winding_passages(),
            4 => DrunkardsWalkBuilder::fat_passages(),
            _ => DrunkardsWalkBuilder::fearful_symmetry(),
        }
    }

    /// One of the five stages below, picked by a die that the system
    /// seeds.
    pub fn random() -> (stage: Box<DrunkardsWalkBuilder>)
        ensures
            exists|roll: i32| stage.settings
                == (#[trigger] DrunkardsWalkBuilder::preset_settings(roll)),
    {
        let mut rng = fresh_rng();
        let roll = rng.roll_dice(1, 5);
        let stage = DrunkardsWalkBuilder::preset(roll);
        proof {
            assert(stage.settings == DrunkardsWalkBuilder::preset_settings(roll));
        }
        stage
    }

    pub open spec fn preset_settings(roll: i32) -> DrunkardSettings {
        match roll {
            1 => open_area_settings(),
            2 => open_halls_settings(),
            3 => winding_passages_settings(),
            4 => fat_passages_settings(),
            _ => fearful_symmetry_settings(),
        }
    }

    /// Digs a large, open area.
    pub fn open_area() -> (stage: Box<DrunkardsWalkBuilder>)
        ensures
            stage.settings == open_area_settings(),
    {
        DrunkardsWalkBuilder::new(
            DrunkardSettings {
                spawn_mode: DrunkSpawnMode::StartingPoint,
                lifespan: 400,
                floor_percent: 50,
                brush_size: 1,
                symmetry: Symmetry::NoSymmetry,
            },
        )
    }

    /// Digs open halls.
    pub fn open_halls() -> (stage: Box<DrunkardsWalkBuilder>)
        ensures
            stage.settings == open_halls_settings(),
    {
        DrunkardsWalkBuilder::new(
            DrunkardSettings {
                spawn_mode: DrunkSpawnMode::Random,
                lifespan: 400,
                floor_percent: 50,
                brush_size: 1,
                symmetry: Symmetry::NoSymmetry,
            },
        )
    }

    /// Digs winding corridors.
    pub fn winding_passages() -> (stage: Box<DrunkardsWalkBuilder>)
        ensures
            stage.settings == winding_passages_settings(),
    {
        DrunkardsWalkBuilder::new(
            DrunkardSettings {
                spawn_mode: DrunkSpawnMode::Random,
                lifespan: 100,
                floor_percent: 40,
                brush_size: 1,
                symmetry: Symmetry::NoSymmetry,
            },
        )
    }

    /// Digs corridors of double width, which gives a cave-like map.
    pub fn fat_passages() -> (stage: Box<DrunkardsWalkBuilder>)
        ensures
            stage.settings == fat_passages_settings(),
    {
        DrunkardsWalkBuilder::new(
            DrunkardSettings {
                spawn_mode: DrunkSpawnMode::Random,
                lifespan: 100,
                floor_percent: 40,
                brush_size: 2,
                symmetry: Symmetry::NoSymmetry,
            },
        )
    }

    /// Digs winding passages with symmetry in both directions.
    pub fn fearful_symmetry() -> (stage: Box<DrunkardsWalkBuilder>)
        ensures
            stage.settings == fearful_symmetry_settings(),
    {
        DrunkardsWalkBuilder::new(
            DrunkardSettings {
                spawn_mode: DrunkSpawnMode::Random,
                lifespan: 100,
                floor_percent: 40,
                brush_size: 1,
                symmetry: Symmetry::Both,
            },
        )
    }

    /// Turns every mark of a digger into floor.
    pub fn clear_marks(map: &mut TileMap)
        requires
            old(map).wf(),
        ensures
            final(map).wf(),
            final(map).same_but_tiles(old(map)),
            forall|i: int|
                0 <= i < old(map).tiles@.len()
                    ==> #[trigger] final(map).tiles@[i] == if old(map).tiles@[i]
                    == TileType::DownStairs {
                    TileType::Floor
                } else {
                    old(map).tiles@[i]
                },
    {
        let n = map.tiles.len();
        let mut i: usize = 0;
        while i < n
            invariant
                map.wf(),
                map.same_but_tiles(old(map)),
                n == map.tiles@.len(),
                i <= n,
                forall|j: int|
                    0 <= j < n ==> #[trigger] map.tiles@[j] == if j < i && old(map).tiles@[j]
                        == TileType::DownStairs {
                        TileType::Floor
                    } else {
                        old(map).tiles@[j]
                    },
            decreases n - i,
        {
            if map.tiles[i] == TileType::DownStairs {
                map.tiles[i] = TileType::Floor;
            }
            i += 1;
        }
    }

    /// Sends drunkards to dig until the map has the floor it is to have,
    /// or `MAX_DIGGERS` have been sent; tells whether the target was
    /// reached. The first starts in the middle of the map, the others
    /// there or where the dice put them.
    pub fn build(&mut self, rng: &mut RandomNumberGenerator,
        build_data: &mut BuildData) -> (reached:
        bool)
        requires
            old(build_data).wf(),
            old(build_data).map.width >= 4,
            old(build_data).map.height >= 4,
            old(self).settings.floor_percent <= 100,
        ensures
            final(self).settings == old(self).settings,
            final(build_data).wf(),
            final(build_data).map.same_but_tiles(&old(build_data).map),
            walked(
                old(build_data).map.tiles@,
                final(build_data).map.tiles@,
                old(build_data).map.width as int,
                old(build_data).map.height as int,
            ),
            old(build_data).map.border_closed() ==> final(build_data).map.border_closed(),
            exists|n: int|
                0 <= n <= MAX_DIGGERS && #[trigger] drunkards_sent(
                    old(self).settings,
                    old(build_data).map.width as int,
                    old(build_data).map.height as int,
                    old(build_data).map.tiles@.update(
                        cell_index(
                            old(build_data).map.width as int,
                            old(build_data).map.width / 2,
                            old(build_data).map.height / 2,
                        ),
                        TileType::Floor,
                    ),
                    final(build_data).map.tiles@,
                    n,
                ) && (reached || n == MAX_DIGGERS),
            final(build_data).map.tiles@[cell_index(
                old(build_data).map.width as int,
                old(build_data).map.width / 2,
                old(build_data).map.height / 2,
            )] == TileType::Floor,
            reached == (count_of(
                final(build_data).map.tiles@,
                TileType::Floor,
                final(build_data).map.tiles@.len() as int,
            ) >= desired_floor(
                old(build_data).map.width * old(build_data).map.height,
                old(self).settings.floor_percent as int,
            )),
            final(build_data).spawn_list == old(build_data).spawn_list,
            final(build_data).start == old(build_data).start,
            final(build_data).rooms == old(build_data).rooms,
            final(build_data).extends_history(old(build_data)),
    {
        let ghost w = build_data.map.width as int;
        let ghost h = build_data.map.height as int;
        let ghost before = build_data.map.tiles@;
        let (start_x, start_y) = build_data.map.center();
        proof {
            lemma_cell_unique(w, h, start_x as int, start_y as int);
            assert(w * h <= 0x1000_0000) by (nonlinear_arith)
                requires
                    1 <= w <= 16384,
                    1 <= h <= 16384,
            ;
        }
        let start_idx = build_data.map.xy_idx(start_x, start_y);
        build_data.map.tiles[start_idx] = TileType::Floor;
        let ghost opened = build_data.map.tiles@;
        let total_tiles: u64 = (build_data.map.width as u64) * (build_data.map.height as u64);
        proof {
            assert(0 <= total_tiles * self.settings.floor_percent <= 0x1000_0000 * 100)
                by (nonlinear_arith)
                requires
                    0 <= total_tiles <= 0x1000_0000,
                    0 <= self.settings.floor_percent <= 100,
            ;
        }
        let desired_floor_tiles: usize = (total_tiles * (self.settings.floor_percent as u64)
            / 100) as usize;
        let mut floor_tile_count = build_data.map.count_floor_tiles();
        let mut digger_count: u32 = 0;
        while floor_tile_count < desired_floor_tiles && digger_count < MAX_DIGGERS
            invariant
                self.settings == old(self).settings,
                build_data.wf(),
                build_data.map.same_but_tiles(&old(build_data).map),
                w == build_data.map.width,
                h == build_data.map.height,
                w >= 4,
                h >= 4,
                start_x == w / 2,
                start_y == h / 2,
                before == old(build_data).map.tiles@,
                opened == before.update(cell_index(w, w / 2, h / 2), TileType::Floor),
                drunkards_sent(
                    self.settings,
                    w,
                    h,
                    opened,
                    build_data.map.tiles@,
                    digger_count as int,
                ),
                walked(before, build_data.map.tiles@, w, h),
                start_idx == cell_index(w, w / 2, h / 2),
                start_idx < build_data.map.tiles@.len(),
                build_data.map.tiles@[start_idx as int] == TileType::Floor,
                floor_tile_count == count_of(
                    build_data.map.tiles@,
                    TileType::Floor,
                    build_data.map.tiles@.len() as int,
                ),
                desired_floor_tiles == desired_floor(w * h, self.settings.floor_percent as int),
                digger_count <= MAX_DIGGERS,
                build_data.spawn_list == old(build_data).spawn_list,
                build_data.start == old(build_data).start,
                build_data.rooms == old(build_data).rooms,
                build_data.extends_history(old(build_data)),
            decreases MAX_DIGGERS - digger_count,
        {
            let mut drunk_x: i32 = start_x;
            let mut drunk_y: i32 = start_y;
            match self.settings.spawn_mode {
                DrunkSpawnMode::StartingPoint => {},
                DrunkSpawnMode::Random => {
                    if digger_count != 0 {
                        drunk_x = rng.roll_dice(1, build_data.map.width - 3) + 1;
                        drunk_y = rng.roll_dice(1, build_data.map.height - 3) + 1;
                    }
                },
            }
            let mut drunk = DrunkDigger::new(drunk_x, drunk_y, self.settings);
            let ghost tiles_0 = build_data.map.tiles@;
            drunk.stagger(&mut build_data.map, rng);
            if drunk.did_something {
                build_data.take_snapshot();
            }
            digger_count += 1;
            let ghost tiles_1 = build_data.map.tiles@;
            DrunkardsWalkBuilder::clear_marks(&mut build_data.map);
            proof {
                let tiles_2 = build_data.map.tiles@;
                let rolls = choose|rolls: Seq<int>|
                    lifelong(self.settings, rolls) && tiles_1 == (#[trigger] drunk_steps(
                        self.settings,
                        w,
                        h,
                        tiles_0,
                        drunk_x as int,
                        drunk_y as int,
                        rolls,
                        rolls.len() as int,
                    )).0;
                assert(tiles_2 =~= unmarked(tiles_1));
                assert(drunk_start(
                    self.settings,
                    digger_count as int,
                    w,
                    h,
                    drunk_x as int,
                    drunk_y as int,
                ));
                assert(drunk_sent(self.settings, w, h, tiles_0, tiles_2, digger_count as int));
                assert(drunkards_sent(
                    self.settings,
                    w,
                    h,
                    opened,
                    tiles_0,
                    digger_count - 1,
                ));
                assert(drunkards_sent(
                    self.settings,
                    w,
                    h,
                    opened,
                    tiles_2,
                    digger_count as int,
                ));
                assert(tiles_1[start_idx as int] == TileType::Floor || tiles_1[start_idx as int]
                    == TileType::DownStairs);
                assert(tiles_2[start_idx as int] == TileType::Floor);
                assert forall|i: int| 0 <= i < before.len() implies #[trigger] tiles_2[i]
                    == before[i] || (tiles_2[i] == TileType::Floor && (is_interior(
                    w,
                    h,
                    col_of(w, i),
                    row_of(w, i),
                ) || before[i] == TileType::DownStairs)) by {
                    assert(tiles_0[i] == before[i] || (tiles_0[i] == TileType::Floor));
                    assert(tiles_1[i] == tiles_0[i] || (is_interior(
                        w,
                        h,
                        col_of(w, i),
                        row_of(w, i),
                    )));
                }
            }
            floor_tile_count = build_data.map.count_floor_tiles();
        }
        proof {
            if old(build_data).map.border_closed() {
                let after = build_data.map.tiles@;
                assert forall|i: int|
                    0 <= i < after.len() && crate::tile_map::on_border(
                        w,
                        h,
                        col_of(w, i),
                        row_of(w, i),
                    ) implies #[trigger] after[i] == TileType::Wall by {
                    assert(before[i] == TileType::Wall);
                }
            }
        }
        floor_tile_count >= desired_floor_tiles
    }
}

pub open spec fn open_area_settings() -> DrunkardSettings {
    DrunkardSettings {
        spawn_mode: DrunkSpawnMode::StartingPoint,
        lifespan: 400,
        floor_percent: 50,
        brush_size: 1,
        symmetry: Symmetry::NoSymmetry,
    }
}

pub open spec fn open_halls_settings() -> DrunkardSettings {
    DrunkardSettings {
        spawn_mode: DrunkSpawnMode::Random,
        lifespan: 400,
        floor_percent: 50,
        brush_size: 1,
        symmetry: Symmetry::NoSymmetry,
    }
}

pub open spec fn winding_passages_settings() -> DrunkardSettings {
    DrunkardSettings {
        spawn_mode: DrunkSpawnMode::Random,
        lifespan: 100,
        floor_percent: 40,
        brush_size: 1,
        symmetry: Symmetry::NoSymmetry,
    }
}

pub open spec fn fat_passages_settings() -> DrunkardSettings {
    DrunkardSettings {
        spawn_mode: DrunkSpawnMode::Random,
        lifespan: 100,
        floor_percent: 40,
        brush_size: 2,
        symmetry: Symmetry::NoSymmetry,
    }
}

pub open spec fn fearful_symmetry_settings() -> DrunkardSettings {
    DrunkardSettings {
        spawn_mode: DrunkSpawnMode::Random,
        lifespan: 100,
        floor_percent: 40,
        brush_size: 1,
        symmetry: Symmetry::Both,
    }
}

impl InitialMapBuilder for DrunkardsWalkBuilder {
    open spec fn initial_outcome(
        &self,
        before: &BuildData,
        after: &BuildData,
        result: Result<(), BuildError>,
    ) -> bool {
        match result {
            Err(error) => if self.settings.floor_percent > 100 {
                error == BuildError::BadSettings
            } else {
                error == BuildError::MapTooSmall && (before.map.width < 4 || before.map.height
                    < 4)
            },
            Ok(_) => {
                &&& before.map.border_closed() ==> after.map.border_closed()
                &&& self.settings.floor_percent <= 100
                &&& before.map.width >= 4
                &&& before.map.height >= 4
                &&& walked(
                    before.map.tiles@,
                    after.map.tiles@,
                    before.map.width as int,
                    before.map.height as int,
                )
                &&& exists|n: int|
                    0 <= n <= MAX_DIGGERS && #[trigger] drunkards_sent(
                        self.settings,
                        before.map.width as int,
                        before.map.height as int,
                        before.map.tiles@.update(
                            cell_index(
                                before.map.width as int,
                                before.map.width / 2,
                                before.map.height / 2,
                            ),
                            TileType::Floor,
                        ),
                        after.map.tiles@,
                        n,
                    ) && (n == MAX_DIGGERS || count_of(
                        after.map.tiles@,
                        TileType::Floor,
                        after.map.tiles@.len() as int,
                    ) >= desired_floor(
                        before.map.width * before.map.height,
                        self.settings.floor_percent as int,
                    ))
                &&& after.spawn_list == before.spawn_list
                &&& after.start == before.start
                &&& after.rooms == before.rooms
            },
        }
    }

    fn build_map(&mut self, rng: &mut RandomNumberGenerator, build_data: &mut BuildData) -> (result:
        Result<(), BuildError>)
        ensures
            result is Err <==> old(build_data).map.width < 4 || old(build_data).map.height < 4
                || old(self).settings.floor_percent > 100,
    {
        if self.settings.floor_percent > 100 {
            return Err(BuildError::BadSettings);
        }
        if build_data.map.width < 4 || build_data.map.height < 4 {
            return Err(BuildError::MapTooSmall);
        }
        self.build(rng, build_data);
        Ok(())
    }
}

} // verus!
