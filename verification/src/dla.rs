use crate::build_data::{BuildData, BuildError};
use crate::chain::InitialMapBuilder;
use crate::common::{digger_range, paint, staggered, symmetry_from, Digger, Symmetry};
use crate::drunkard::brushed;
use crate::random::{bresenham_line, fresh_rng, line_points, random_range};
use crate::tile_map::{
    cell_index, col_of, count_of, dug, lemma_cell_unique, lemma_dug_keeps_border,
    lemma_dug_twice, lemma_overlaid_dug, overlaid, row_of, TileMap, TileType,
};
use rltk::RandomNumberGenerator;
use vstd::prelude::*;

verus! {

#[derive(PartialEq, Eq, Clone, Copy, Debug, Structural)]
pub enum DLAAlgorithm {
    WalkInwards,
    WalkOutwards,
    CentralAttractor,
}

/// How many walks a stage starts before it gives up on its target.
pub const MAX_WALKS: u32 = 1_000_000;

/// How many steps a digger staggers before it stops where it is.
pub const MAX_STAGGER_STEPS: u32 = 1_000_000;

/// Grows floor outwards from a seed in the middle of the map.
pub struct DLABuilder {
    pub algorithm: DLAAlgorithm,
    pub symmetry: Symmetry,
    pub brush_size: i32,
    pub floor_percent: u32,
}

/// Digger that staggers over the map while it stands on tiles of its
/// kind.
pub struct TileDigger {
    pub x: i32,
    pub y: i32,
    pub tile_type: TileType,
    pub idx: usize,
}

/// The algorithm for a number from zero to two, as the dice give it.
pub fn algorithm_from(n: i32) -> (algorithm: DLAAlgorithm)
    ensures
        algorithm == match n {
            0 => DLAAlgorithm::WalkInwards,
            1 => DLAAlgorithm::WalkOutwards,
            _ => DLAAlgorithm::CentralAttractor,
        },
{
    match n {
        0 => DLAAlgorithm::WalkInwards,
        1 => DLAAlgorithm::WalkOutwards,
        _ => DLAAlgorithm::CentralAttractor,
    }
}

/// Where a walk along `path` stops that stands on `digger`, stood on
/// `prev` before, and has `next` points of the path behind it: it steps
/// from point to point while it stands on a wall and the next point is in
/// a digger's range, and stops on the place it stood on before its last
/// step.
pub open spec fn followed(
    tiles: Seq<TileType>,
    width: int,
    height: int,
    path: Seq<(i32, i32)>,
    digger: (i32, i32),
    prev: (i32, i32),
    next: int,
) -> (i32, i32)
    decreases path.len() - next,
{
    if next < 0 || next >= path.len() || tiles[crate::tile_map::cell_index(
        width,
        digger.0 as int,
        digger.1 as int,
    )] != TileType::Wall {
        prev
    } else if !digger_range(width, height, path[next].0 as int, path[next].1 as int) {
        prev
    } else {
        followed(tiles, width, height, path, path[next], digger, next + 1)
    }
}

/// Where a digger from `(x, y)` stands after the first `k` of the steps
/// that `rolls` ask for.
pub open spec fn stagger_path(
    width: int,
    height: int,
    x: int,
    y: int,
    rolls: Seq<int>,
    k: int,
) -> (int, int)
    decreases k,
{
    if k <= 0 {
        (x, y)
    } else {
        let at = stagger_path(width, height, x, y, rolls, k - 1);
        staggered(width, height, at.0, at.1, rolls[k - 1])
    }
}

/// Where the first steps lead does not depend on the rolls after them.
pub proof fn lemma_path_prefix(
    width: int,
    height: int,
    x: int,
    y: int,
    short: Seq<int>,
    long: Seq<int>,
    k: int,
)
    requires
        0 <= k <= short.len() <= long.len(),
        forall|i: int| 0 <= i < short.len() ==> short[i] == long[i],
    ensures
        stagger_path(width, height, x, y, long, k) == stagger_path(width, height, x, y, short, k),
    decreases k,
{
    if k > 0 {
        lemma_path_prefix(width, height, x, y, short, long, k - 1);
    }
}

/// The tile on which a digger from `(x, y)` stands after `k` steps.
pub open spec fn tile_after(
    tiles: Seq<TileType>,
    width: int,
    height: int,
    x: int,
    y: int,
    rolls: Seq<int>,
    k: int,
) -> TileType {
    let at = stagger_path(width, height, x, y, rolls, k);
    tiles[cell_index(width, at.0, at.1)]
}

/// Whether `rolls` are the steps of a digger for tiles of `kind` that
/// starts on `(x, y)`: rolls of a four-sided die, each made while the
/// digger stood on a tile of its kind, the last bringing it upon
/// anything else, or being the last that it may take.
pub open spec fn tile_walk(
    tiles: Seq<TileType>,
    width: int,
    height: int,
    kind: TileType,
    x: int,
    y: int,
    rolls: Seq<int>,
) -> bool {
    &&& rolls.len() <= MAX_STAGGER_STEPS
    &&& forall|k: int| 0 <= k < rolls.len() ==> 1 <= #[trigger] rolls[k] <= 4
    &&& forall|k: int|
        0 <= k < rolls.len() ==> #[trigger] tile_after(tiles, width, height, x, y, rolls, k)
            == kind
    &&& rolls.len() == MAX_STAGGER_STEPS || tile_after(
        tiles,
        width,
        height,
        x,
        y,
        rolls,
        rolls.len() as int,
    ) != kind
}

/// Where a digger stands after all its steps.
pub open spec fn walk_end(width: int, height: int, x: int, y: int, rolls: Seq<int>) -> (int, int) {
    stagger_path(width, height, x, y, rolls, rolls.len() as int)
}

/// Where a digger stood before its last step; where it started, if it
/// took none.
pub open spec fn walk_prev(width: int, height: int, x: int, y: int, rolls: Seq<int>) -> (
    int,
    int,
) {
    stagger_path(width, height, x, y, rolls, rolls.len() - 1)
}

/// Whether `after` is what one walk makes of `before`. A walk inwards
/// drops a digger for walls where the dice say and paints where it stood
/// before its last step. A walk outwards sends a digger for floor from
/// `(sx, sy)` and paints where it stops. A walk to the centre follows the
/// straight line from where the dice say to `(sx, sy)` over walls and
/// paints where it stood before its last step.
pub open spec fn one_walk(
    algorithm: DLAAlgorithm,
    symmetry: Symmetry,
    brush_size: int,
    width: int,
    height: int,
    sx: int,
    sy: int,
    before: Seq<TileType>,
    after: Seq<TileType>,
) -> bool {
    match algorithm {
        DLAAlgorithm::WalkInwards => exists|x: int, y: int, rolls: Seq<int>|
            digger_range(width, height, x, y) && #[trigger] tile_walk(
                before,
                width,
                height,
                TileType::Wall,
                x,
                y,
                rolls,
            ) && after == brushed(
                before,
                symmetry,
                brush_size,
                width,
                height,
                walk_prev(width, height, x, y, rolls).0,
                walk_prev(width, height, x, y, rolls).1,
            ),
        DLAAlgorithm::WalkOutwards => exists|rolls: Seq<int>| #[trigger]
            tile_walk(before, width, height, TileType::Floor, sx, sy, rolls) && after == brushed(
                before,
                symmetry,
                brush_size,
                width,
                height,
                walk_end(width, height, sx, sy, rolls).0,
                walk_end(width, height, sx, sy, rolls).1,
            ),
        DLAAlgorithm::CentralAttractor => exists|x: i32, y: i32|
            digger_range(width, height, x as int, y as int) && after == brushed(
                before,
                symmetry,
                brush_size,
                width,
                height,
                (#[trigger] attracted(before, width, height, x, y, sx, sy)).0 as int,
                attracted(before, width, height, x, y, sx, sy).1 as int,
            ),
    }
}

/// Where a walk along the straight line from `(x, y)` to `(sx, sy)`
/// stood before its last step.
pub open spec fn attracted(
    tiles: Seq<TileType>,
    width: int,
    height: int,
    x: i32,
    y: i32,
    sx: int,
    sy: int,
) -> (i32, i32) {
    followed(tiles, width, height, line_points(x as int, y as int, sx, sy), (x, y), (x, y), 0)
}

/// Whether `last` is what `n` walks, one after the other, make of
/// `first`, each made because the map had less floor than `target`.
pub open spec fn walks_made(
    algorithm: DLAAlgorithm,
    symmetry: Symmetry,
    brush_size: int,
    width: int,
    height: int,
    sx: int,
    sy: int,
    target: int,
    first: Seq<TileType>,
    last: Seq<TileType>,
    n: int,
) -> bool
    decreases n,
{
    if n <= 0 {
        last == first
    } else {
        exists|mid: Seq<TileType>|
            walks_made(
                algorithm,
                symmetry,
                brush_size,
                width,
                height,
                sx,
                sy,
                target,
                first,
                mid,
                n - 1,
            ) && count_of(mid, TileType::Floor, mid.len() as int) < target
                && #[trigger] one_walk(
                algorithm,
                symmetry,
                brush_size,
                width,
                height,
                sx,
                sy,
                mid,
                last,
            )
    }
}

/// Walks inwards have nothing to do with the point that the other walks
/// start from or make for.
pub proof fn lemma_inwards_from_anywhere(
    symmetry: Symmetry,
    brush_size: int,
    width: int,
    height: int,
    sx: int,
    sy: int,
    tx: int,
    ty: int,
    target: int,
    first: Seq<TileType>,
    last: Seq<TileType>,
    n: int,
)
    requires
        walks_made(
            DLAAlgorithm::WalkInwards,
            symmetry,
            brush_size,
            width,
            height,
            sx,
            sy,
            target,
            first,
            last,
            n,
        ),
    ensures
        walks_made(
            DLAAlgorithm::WalkInwards,
            symmetry,
            brush_size,
            width,
            height,
            tx,
            ty,
            target,
            first,
            last,
            n,
        ),
    decreases n,
{
    if n > 0 {
        let mid = choose|mid: Seq<TileType>|
            walks_made(
                DLAAlgorithm::WalkInwards,
                symmetry,
                brush_size,
                width,
                height,
                sx,
                sy,
                target,
                first,
                mid,
                n - 1,
            ) && count_of(mid, TileType::Floor, mid.len() as int) < target
                && #[trigger] one_walk(
                DLAAlgorithm::WalkInwards,
                symmetry,
                brush_size,
                width,
                height,
                sx,
                sy,
                mid,
                last,
            );
        lemma_inwards_from_anywhere(
            symmetry,
            brush_size,
            width,
            height,
            sx,
            sy,
            tx,
            ty,
            target,
            first,
            mid,
            n - 1,
        );
        assert(one_walk(
            DLAAlgorithm::WalkInwards,
            symmetry,
            brush_size,
            width,
            height,
            tx,
            ty,
            mid,
            last,
        ));
    }
}

/// Whether `last` is what walks make of `first`: some number of them up
/// to `MAX_WALKS`, and all of these unless `reached`.
pub open spec fn walks_done(
    algorithm: DLAAlgorithm,
    symmetry: Symmetry,
    brush_size: int,
    width: int,
    height: int,
    sx: int,
    sy: int,
    target: int,
    first: Seq<TileType>,
    last: Seq<TileType>,
    reached: bool,
) -> bool {
    exists|n: int|
        0 <= n <= MAX_WALKS && #[trigger] walks_made(
            algorithm,
            symmetry,
            brush_size,
            width,
            height,
            sx,
            sy,
            target,
            first,
            last,
            n,
        ) && (reached || n == MAX_WALKS)
}

/// The tiles with the seed dug: the cell `(sx, sy)` and the four beside
/// it are floor.
pub open spec fn seeded_tiles(tiles: Seq<TileType>, width: int, sx: int, sy: int) -> Seq<
    TileType,
> {
    Seq::new(
        tiles.len(),
        |i: int|
            if DLABuilder::in_seed(sx, sy, col_of(width, i), row_of(width, i)) {
                TileType::Floor
            } else {
                tiles[i]
            },
    )
}

impl TileDigger {
    /// Creates and returns a new [`TileDigger`].
    pub fn new(x: i32, y: i32, tile_type: TileType) -> (digger: TileDigger)
        ensures
            digger.x == x,
            digger.y == y,
            digger.tile_type == tile_type,
    {
        TileDigger { x, y, tile_type, idx: 0 }
    }
}

impl Digger for TileDigger {
    open spec fn position(&self) -> (i32, i32) {
        (self.x, self.y)
    }

    fn get_position(&self) -> (p: (i32, i32)) {
        (self.x, self.y)
    }

    fn set_position(&mut self, x: i32, y: i32) {
        self.x = x;
        self.y = y;
    }

    /// Moves the digger around the map one tile at a time in a random
    /// direction until it stands on a tile that is not of its kind, or has
    /// taken `MAX_STAGGER_STEPS` steps. The map stays as it is.
    fn stagger(&mut self, map: &mut TileMap, rng: &mut RandomNumberGenerator) -> (before: (
        i32,
        i32,
    ))
        ensures
            final(map).tiles@ == old(map).tiles@,
            final(self).tile_type == old(self).tile_type,
            exists|rolls: Seq<int>| #[trigger]
                tile_walk(
                    old(map).tiles@,
                    old(map).width as int,
                    old(map).height as int,
                    old(self).tile_type,
                    old(self).x as int,
                    old(self).y as int,
                    rolls,
                ) && (final(self).x as int, final(self).y as int) == walk_end(
                    old(map).width as int,
                    old(map).height as int,
                    old(self).x as int,
                    old(self).y as int,
                    rolls,
                ) && (before.0 as int, before.1 as int) == walk_prev(
                    old(map).width as int,
                    old(map).height as int,
                    old(self).x as int,
                    old(self).y as int,
                    rolls,
                ),
    {
        let tile_type = self.tile_type;
        let mut prev_pos: (i32, i32) = (self.x, self.y);
        let mut idx = map.xy_idx(self.x, self.y);
        let mut steps: u32 = 0;
        let ghost mut rolls: Seq<int> = Seq::empty();
        let ghost w = map.width as int;
        let ghost h = map.height as int;
        let ghost x0 = self.x as int;
        let ghost y0 = self.y as int;
        let ghost tiles = map.tiles@;
        while map.tiles[idx] == tile_type && steps < MAX_STAGGER_STEPS
            invariant
                w == map.width,
                h == map.height,
                x0 == old(self).x,
                y0 == old(self).y,
                tiles == map.tiles@,
                tile_type == old(self).tile_type,
                rolls.len() == steps,
                forall|k: int| 0 <= k < rolls.len() ==> 1 <= #[trigger] rolls[k] <= 4,
                forall|k: int|
                    0 <= k < rolls.len() ==> #[trigger] tile_after(tiles, w, h, x0, y0, rolls, k)
                        == tile_type,
                (self.x as int, self.y as int) == stagger_path(
                    w,
                    h,
                    x0,
                    y0,
                    rolls,
                    rolls.len() as int,
                ),
                (prev_pos.0 as int, prev_pos.1 as int) == stagger_path(
                    w,
                    h,
                    x0,
                    y0,
                    rolls,
                    rolls.len() - 1,
                ),
                idx == cell_index(w, self.x as int, self.y as int),
                *map == *old(map),
                map.wf(),
                idx < map.tiles@.len(),
                digger_range(
                    map.width as int,
                    map.height as int,
                    self.position().0 as int,
                    self.position().1 as int,
                ),
                digger_range(
                    map.width as int,
                    map.height as int,
                    prev_pos.0 as int,
                    prev_pos.1 as int,
                ),
                steps <= MAX_STAGGER_STEPS,
            decreases MAX_STAGGER_STEPS - steps,
        {
            prev_pos = self.get_position();
            self.stagger_direction(map, rng);
            let at = self.get_position();
            idx = map.xy_idx(at.0, at.1);
            steps += 1;
            proof {
                let roll = choose|roll: int|
                    1 <= roll <= 4 && (at.0 as int, at.1 as int) == #[trigger] staggered(
                        w,
                        h,
                        prev_pos.0 as int,
                        prev_pos.1 as int,
                        roll,
                    );
                let rolls_then = rolls;
                rolls = rolls_then.push(roll);
                assert(rolls[rolls.len() - 1] == roll);
                lemma_path_prefix(w, h, x0, y0, rolls_then, rolls, rolls_then.len() as int);
                assert forall|k: int| 0 <= k < rolls.len() implies #[trigger] tile_after(
                    tiles,
                    w,
                    h,
                    x0,
                    y0,
                    rolls,
                    k,
                ) == tile_type by {
                    lemma_path_prefix(w, h, x0, y0, rolls_then, rolls, k);
                    if k < rolls_then.len() {
                        assert(tile_after(tiles, w, h, x0, y0, rolls_then, k) == tile_type);
                    }
                }
            }
        }
        self.idx = idx;
        self.tile_type = tile_type;
        proof {
            assert(tile_after(tiles, w, h, x0, y0, rolls, rolls.len() as int) == tiles[idx as int]);
            assert(tile_walk(tiles, w, h, tile_type, x0, y0, rolls));
        }
        prev_pos
    }
}

impl DLABuilder {
    /// The stage for the roll of a five-sided die: the first by dice of
    /// its own, then the four presets.
    pub fn preset(roll: i32) -> (stage: Box<DLABuilder>)
        ensures
            stage.floor_percent == 25,
            1 <= stage.brush_size <= 3,
            roll == 2 ==> stage.algorithm == DLAAlgorithm::WalkInwards && stage.symmetry
                == Symmetry::NoSymmetry && stage.brush_size == 1,
            roll == 3 ==> stage.algorithm == DLAAlgorithm::WalkOutwards && stage.symmetry
                == Symmetry::NoSymmetry && stage.brush_size == 2,
            roll == 4 ==> stage.algorithm == DLAAlgorithm::WalkInwards && stage.symmetry
                == Symmetry::NoSymmetry && stage.brush_size == 2,
            roll != 1 && roll != 2 && roll != 3 && roll != 4 ==> stage.algorithm
                == DLAAlgorithm::WalkInwards && stage.symmetry == Symmetry::Horizontal
                && stage.brush_size == 2,
    {
        match roll {
            1 => DLABuilder::new_random(),
            2 => DLABuilder::new_walk_inwards(),
            3 => DLABuilder::new_walk_outwards(),
            4 => DLABuilder::new_central_attractor(),
            _ => DLABuilder::new_insectoid(),
        }
    }

    /// One of the five stages below, picked by a die that the system
    /// seeds.
    pub fn new() -> (stage: Box<DLABuilder>)
        ensures
            stage.floor_percent == 25,
            1 <= stage.brush_size <= 3,
    {
        let mut rng = fresh_rng();
        let roll = rng.roll_dice(1, 5);
        DLABuilder::preset(roll)
    }

    /// A stage with algorithm, symmetry and brush picked by dice that the
    /// system seeds.
    pub fn new_random() -> (stage: Box<DLABuilder>)
        ensures
            stage.floor_percent == 25,
            1 <= stage.brush_size <= 3,
    {
        let mut rng = fresh_rng();
        let algorithm = algorithm_from(random_range(&mut rng, 0, 3));
        let symmetry = symmetry_from(random_range(&mut rng, 0, 4));
        Box::new(
            DLABuilder { algorithm, symmetry, brush_size: rng.roll_dice(1, 3), floor_percent: 25 },
        )
    }

    pub fn new_walk_inwards() -> (stage: Box<DLABuilder>)
        ensures
            stage.algorithm == DLAAlgorithm::WalkInwards,
            stage.symmetry == Symmetry::NoSymmetry,
            stage.brush_size == 1,
            stage.floor_percent == 25,
    {
        Box::new(
            DLABuilder {
                algorithm: DLAAlgorithm::WalkInwards,
                symmetry: Symmetry::NoSymmetry,
                brush_size: 1,
                floor_percent: 25,
            },
        )
    }

    pub fn new_walk_outwards() -> (stage: Box<DLABuilder>)
        ensures
            stage.algorithm == DLAAlgorithm::WalkOutwards,
            stage.symmetry == Symmetry::NoSymmetry,
            stage.brush_size == 2,
            stage.floor_percent == 25,
    {
        Box::new(
            DLABuilder {
                algorithm: DLAAlgorithm::WalkOutwards,
                symmetry: Symmetry::NoSymmetry,
                brush_size: 2,
                floor_percent: 25,
            },
        )
    }

    pub fn new_central_attractor() -> (stage: Box<DLABuilder>)
        ensures
            stage.algorithm == DLAAlgorithm::WalkInwards,
            stage.symmetry == Symmetry::NoSymmetry,
            stage.brush_size == 2,
            stage.floor_percent == 25,
    {
        Box::new(
            DLABuilder {
                algorithm: DLAAlgorithm::WalkInwards,
                symmetry: Symmetry::NoSymmetry,
                brush_size: 2,
                floor_percent: 25,
            },
        )
    }

    pub fn new_insectoid() -> (stage: Box<DLABuilder>)
        ensures
            stage.algorithm == DLAAlgorithm::WalkInwards,
            stage.symmetry == Symmetry::Horizontal,
            stage.brush_size == 2,
            stage.floor_percent == 25,
    {
        Box::new(
            DLABuilder {
                algorithm: DLAAlgorithm::WalkInwards,
                symmetry: Symmetry::Horizontal,
                brush_size: 2,
                floor_percent: 25,
            },
        )
    }

    /// Whether `(x, y)` is the cell `(sx, sy)` or next to it in its row or
    /// column.
    pub open spec fn in_seed(sx: int, sy: int, x: int, y: int) -> bool {
        (x == sx && sy - 1 <= y <= sy + 1) || (y == sy && sx - 1 <= x <= sx + 1)
    }

    /// Digs the seed: the cell `(x, y)` and the four next to it.
    pub fn seed_start(map: &mut TileMap, x: i32, y: i32)
        requires
            old(map).wf(),
            1 <= x < old(map).width - 1,
            1 <= y < old(map).height - 1,
        ensures
            final(map).wf(),
            final(map).same_but_tiles(old(map)),
            overlaid(
                old(map).tiles@,
                final(map).tiles@,
                old(map).width as int,
                |cx: int, cy: int| DLABuilder::in_seed(x as int, y as int, cx, cy),
                TileType::Floor,
            ),
    {
        let ghost w = map.width as int;
        let ghost h = map.height as int;
        proof {
            lemma_cell_unique(w, h, x as int, y as int);
            lemma_cell_unique(w, h, x - 1, y as int);
            lemma_cell_unique(w, h, x + 1, y as int);
            lemma_cell_unique(w, h, x as int, y - 1);
            lemma_cell_unique(w, h, x as int, y + 1);
        }
        let start_idx = map.xy_idx(x, y);
        let left = map.xy_idx(x - 1, y);
        let right = map.xy_idx(x + 1, y);
        let up = map.xy_idx(x, y - 1);
        let down = map.xy_idx(x, y + 1);
        map.tiles[start_idx] = TileType::Floor;
        map.tiles[left] = TileType::Floor;
        map.tiles[right] = TileType::Floor;
        map.tiles[up] = TileType::Floor;
        map.tiles[down] = TileType::Floor;
    }

    /// Drops diggers at places that the dice pick; each staggers over
    /// walls until it comes upon anything else, and the last wall it stood
    /// on is painted. Goes on until the map has `desired_floor_tiles` of
    /// floor or `MAX_WALKS` diggers were dropped; tells whether the target
    /// was reached.
    pub fn walk_inwards(
        &mut self,
        desired_floor_tiles: usize,
        rng: &mut RandomNumberGenerator,
        build_data: &mut BuildData,
    ) -> (reached: bool)
        requires
            old(build_data).wf(),
            old(build_data).map.width >= 4,
            old(build_data).map.height >= 4,
        ensures
            *final(self) == *old(self),
            final(build_data).wf(),
            final(build_data).map.same_but_tiles(&old(build_data).map),
            dug(
                old(build_data).map.tiles@,
                final(build_data).map.tiles@,
                old(build_data).map.width as int,
                old(build_data).map.height as int,
            ),
            reached == (count_of(
                final(build_data).map.tiles@,
                TileType::Floor,
                final(build_data).map.tiles@.len() as int,
            ) >= desired_floor_tiles),
            walks_done(
                DLAAlgorithm::WalkInwards,
                old(self).symmetry,
                old(self).brush_size as int,
                old(build_data).map.width as int,
                old(build_data).map.height as int,
                0,
                0,
                desired_floor_tiles as int,
                old(build_data).map.tiles@,
                final(build_data).map.tiles@,
                reached,
            ),
            final(build_data).spawn_list == old(build_data).spawn_list,
            final(build_data).start == old(build_data).start,
            final(build_data).rooms == old(build_data).rooms,
            final(build_data).history == old(build_data).history,
            final(build_data).record_history == old(build_data).record_history,
    {
        let ghost w = build_data.map.width as int;
        let ghost h = build_data.map.height as int;
        let ghost before = build_data.map.tiles@;
        let mut floor_tile_count = build_data.map.count_floor_tiles();
        let mut walks: u32 = 0;
        while floor_tile_count < desired_floor_tiles && walks < MAX_WALKS
            invariant
                *self == *old(self),
                build_data.wf(),
                build_data.map.same_but_tiles(&old(build_data).map),
                w == build_data.map.width,
                h == build_data.map.height,
                w >= 4,
                h >= 4,
                before == old(build_data).map.tiles@,
                walks_made(
                    DLAAlgorithm::WalkInwards,
                    self.symmetry,
                    self.brush_size as int,
                    w,
                    h,
                    0,
                    0,
                    desired_floor_tiles as int,
                    before,
                    build_data.map.tiles@,
                    walks as int,
                ),
                dug(before, build_data.map.tiles@, w, h),
                floor_tile_count == count_of(
                    build_data.map.tiles@,
                    TileType::Floor,
                    build_data.map.tiles@.len() as int,
                ),
                walks <= MAX_WALKS,
                build_data.spawn_list == old(build_data).spawn_list,
                build_data.start == old(build_data).start,
                build_data.rooms == old(build_data).rooms,
                build_data.history == old(build_data).history,
                build_data.record_history == old(build_data).record_history,
            decreases MAX_WALKS - walks,
        {
            let from_x = rng.roll_dice(1, build_data.map.width - 3) + 1;
            let from_y = rng.roll_dice(1, build_data.map.height - 3) + 1;
            let mut drunk = TileDigger::new(from_x, from_y, TileType::Wall);
            let (prev_x, prev_y) = drunk.stagger(&mut build_data.map, rng);
            let ghost tiles_0 = build_data.map.tiles@;
            paint(&mut build_data.map, self.symmetry, self.brush_size, prev_x, prev_y);
            proof {
                lemma_dug_twice(before, tiles_0, build_data.map.tiles@, w, h);
            }
            proof {
                let tiles_1 = build_data.map.tiles@;
                let rolls = choose|rolls: Seq<int>| #[trigger]
                    tile_walk(tiles_0, w, h, TileType::Wall, from_x as int, from_y as int, rolls)
                        && (prev_x as int, prev_y as int) == walk_prev(
                        w,
                        h,
                        from_x as int,
                        from_y as int,
                        rolls,
                    );
                assert(tiles_1 =~= brushed(
                    tiles_0,
                    self.symmetry,
                    self.brush_size as int,
                    w,
                    h,
                    prev_x as int,
                    prev_y as int,
                ));
                assert(one_walk(
                    DLAAlgorithm::WalkInwards,
                    self.symmetry,
                    self.brush_size as int,
                    w,
                    h,
                    0,
                    0,
                    tiles_0,
                    tiles_1,
                ));
                assert(walks_made(
                    DLAAlgorithm::WalkInwards,
                    self.symmetry,
                    self.brush_size as int,
                    w,
                    h,
                    0,
                    0,
                    desired_floor_tiles as int,
                    before,
                    tiles_0,
                    walks + 1 - 1,
                ));
                assert(walks_made(
                    DLAAlgorithm::WalkInwards,
                    self.symmetry,
                    self.brush_size as int,
                    w,
                    h,
                    0,
                    0,
                    desired_floor_tiles as int,
                    before,
                    tiles_1,
                    walks + 1,
                ));
            }
            floor_tile_count = build_data.map.count_floor_tiles();
            walks += 1;
        }
        proof {
            assert(walks_done(
                DLAAlgorithm::WalkInwards,
                self.symmetry,
                self.brush_size as int,
                w,
                h,
                0,
                0,
                desired_floor_tiles as int,
                before,
                build_data.map.tiles@,
                floor_tile_count >= desired_floor_tiles,
            ));
        }
        floor_tile_count >= desired_floor_tiles
    }

    /// Sends diggers from `(start_x, start_y)`; each staggers over floor
    /// until it comes upon anything else, and that tile is painted. Goes
    /// on until the map has `desired_floor_tiles` of floor or `MAX_WALKS`
    /// diggers were sent; tells whether the target was reached.
    pub fn walk_outwards(
        &mut self,
        desired_floor_tiles: usize,
        start_x: i32,
        start_y: i32,
        rng: &mut RandomNumberGenerator,
        build_data: &mut BuildData,
    ) -> (reached: bool)
        requires
            old(build_data).wf(),
            digger_range(
                old(build_data).map.width as int,
                old(build_data).map.height as int,
                start_x as int,
                start_y as int,
            ),
        ensures
            *final(self) == *old(self),
            final(build_data).wf(),
            final(build_data).map.same_but_tiles(&old(build_data).map),
            dug(
                old(build_data).map.tiles@,
                final(build_data).map.tiles@,
                old(build_data).map.width as int,
                old(build_data).map.height as int,
            ),
            reached == (count_of(
                final(build_data).map.tiles@,
                TileType::Floor,
                final(build_data).map.tiles@.len() as int,
            ) >= desired_floor_tiles),
            walks_done(
                DLAAlgorithm::WalkOutwards,
                old(self).symmetry,
                old(self).brush_size as int,
                old(build_data).map.width as int,
                old(build_data).map.height as int,
                start_x as int,
                start_y as int,
                desired_floor_tiles as int,
                old(build_data).map.tiles@,
                final(build_data).map.tiles@,
                reached,
            ),
            final(build_data).spawn_list == old(build_data).spawn_list,
            final(build_data).start == old(build_data).start,
            final(build_data).rooms == old(build_data).rooms,
            final(build_data).history == old(build_data).history,
            final(build_data).record_history == old(build_data).record_history,
    {
        let ghost w = build_data.map.width as int;
        let ghost h = build_data.map.height as int;
        let ghost before = build_data.map.tiles@;
        let mut floor_tile_count = build_data.map.count_floor_tiles();
        let mut walks: u32 = 0;
        while floor_tile_count < desired_floor_tiles && walks < MAX_WALKS
            invariant
                *self == *old(self),
                build_data.wf(),
                build_data.map.same_but_tiles(&old(build_data).map),
                w == build_data.map.width,
                h == build_data.map.height,
                digger_range(w, h, start_x as int, start_y as int),
                before == old(build_data).map.tiles@,
                walks_made(
                    DLAAlgorithm::WalkOutwards,
                    self.symmetry,
                    self.brush_size as int,
                    w,
                    h,
                    start_x as int,
                    start_y as int,
                    desired_floor_tiles as int,
                    before,
                    build_data.map.tiles@,
                    walks as int,
                ),
                dug(before, build_data.map.tiles@, w, h),
                floor_tile_count == count_of(
                    build_data.map.tiles@,
                    TileType::Floor,
                    build_data.map.tiles@.len() as int,
                ),
                walks <= MAX_WALKS,
                build_data.spawn_list == old(build_data).spawn_list,
                build_data.start == old(build_data).start,
                build_data.rooms == old(build_data).rooms,
                build_data.history == old(build_data).history,
                build_data.record_history == old(build_data).record_history,
            decreases MAX_WALKS - walks,
        {
            let mut drunk = TileDigger::new(start_x, start_y, TileType::Floor);
            drunk.stagger(&mut build_data.map, rng);
            let at = drunk.get_position();
            let ghost tiles_0 = build_data.map.tiles@;
            paint(&mut build_data.map, self.symmetry, self.brush_size, at.0, at.1);
            proof {
                lemma_dug_twice(before, tiles_0, build_data.map.tiles@, w, h);
            }
            proof {
                let tiles_1 = build_data.map.tiles@;
                let rolls = choose|rolls: Seq<int>| #[trigger]
                    tile_walk(
                        tiles_0,
                        w,
                        h,
                        TileType::Floor,
                        start_x as int,
                        start_y as int,
                        rolls,
                    ) && (at.0 as int, at.1 as int) == walk_end(
                        w,
                        h,
                        start_x as int,
                        start_y as int,
                        rolls,
                    );
                assert(tiles_1 =~= brushed(
                    tiles_0,
                    self.symmetry,
                    self.brush_size as int,
                    w,
                    h,
                    at.0 as int,
                    at.1 as int,
                ));
                assert(one_walk(
                    DLAAlgorithm::WalkOutwards,
                    self.symmetry,
                    self.brush_size as int,
                    w,
                    h,
                    start_x as int,
                    start_y as int,
                    tiles_0,
                    tiles_1,
                ));
                assert(walks_made(
                    DLAAlgorithm::WalkOutwards,
                    self.symmetry,
                    self.brush_size as int,
                    w,
                    h,
                    start_x as int,
                    start_y as int,
                    desired_floor_tiles as int,
                    before,
                    tiles_0,
                    walks + 1 - 1,
                ));
                assert(walks_made(
                    DLAAlgorithm::WalkOutwards,
                    self.symmetry,
                    self.brush_size as int,
                    w,
                    h,
                    start_x as int,
                    start_y as int,
                    desired_floor_tiles as int,
                    before,
                    tiles_1,
                    walks + 1,
                ));
            }
            floor_tile_count = build_data.map.count_floor_tiles();
            walks += 1;
        }
        proof {
            assert(walks_done(
                DLAAlgorithm::WalkOutwards,
                self.symmetry,
                self.brush_size as int,
                w,
                h,
                start_x as int,
                start_y as int,
                desired_floor_tiles as int,
                before,
                build_data.map.tiles@,
                floor_tile_count >= desired_floor_tiles,
            ));
        }
        floor_tile_count >= desired_floor_tiles
    }

    /// Follows `path` from `(x, y)` and tells where it stood before its
    /// last step.
    pub fn follow(map: &TileMap, path: &Vec<(i32, i32)>, x: i32, y: i32) -> (prev: (i32, i32))
        requires
            map.wf(),
            digger_range(map.width as int, map.height as int, x as int, y as int),
        ensures
            prev == followed(
                map.tiles@,
                map.width as int,
                map.height as int,
                path@,
                (x, y),
                (x, y),
                0,
            ),
            digger_range(map.width as int, map.height as int, prev.0 as int, prev.1 as int),
    {
        let mut digger: (i32, i32) = (x, y);
        let mut prev: (i32, i32) = (x, y);
        let mut digger_idx = map.xy_idx(x, y);
        let mut next: usize = 0;
        let mut stopped = false;
        while !stopped && map.tiles[digger_idx] == TileType::Wall && next < path.len()
            invariant
                map.wf(),
                stopped ==> followed(
                    map.tiles@,
                    map.width as int,
                    map.height as int,
                    path@,
                    digger,
                    prev,
                    next as int,
                ) == prev,
                digger_idx == crate::tile_map::cell_index(
                    map.width as int,
                    digger.0 as int,
                    digger.1 as int,
                ),
                digger_idx < map.tiles@.len(),
                next <= path@.len(),
                digger_range(map.width as int, map.height as int, digger.0 as int, digger.1 as int),
                digger_range(map.width as int, map.height as int, prev.0 as int, prev.1 as int),
                followed(
                    map.tiles@,
                    map.width as int,
                    map.height as int,
                    path@,
                    digger,
                    prev,
                    next as int,
                ) == followed(
                    map.tiles@,
                    map.width as int,
                    map.height as int,
                    path@,
                    (x, y),
                    (x, y),
                    0,
                ),
            decreases
                    path@.len() - next + if stopped {
                        0int
                    } else {
                        1int
                    },
        {
            let to = path[next];
            if !(2 <= to.0 && to.0 <= map.width - 2 && 2 <= to.1 && to.1 <= map.height - 2) {
                stopped = true;
            } else {
                prev = digger;
                digger = to;
                next += 1;
                digger_idx = map.xy_idx(digger.0, digger.1);
            }
        }
        prev
    }

    /// Walks the straight line from `(x, y)` towards `(start_x, start_y)`
    /// over walls and tells the last place it stood on before it came upon
    /// anything else.
    pub fn attract(map: &TileMap, x: i32, y: i32, start_x: i32, start_y: i32) -> (prev: (i32, i32))
        requires
            map.wf(),
            digger_range(map.width as int, map.height as int, x as int, y as int),
            digger_range(map.width as int, map.height as int, start_x as int, start_y as int),
        ensures
            prev == followed(
                map.tiles@,
                map.width as int,
                map.height as int,
                line_points(x as int, y as int, start_x as int, start_y as int),
                (x, y),
                (x, y),
                0,
            ),
            digger_range(map.width as int, map.height as int, prev.0 as int, prev.1 as int),
    {
        let path = bresenham_line(x, y, start_x, start_y);
        DLABuilder::follow(map, &path, x, y)
    }

    /// Drops diggers at places that the dice pick; each walks the straight
    /// line towards `(start_x, start_y)` over walls until it comes upon
    /// anything else, and the last wall it stood on is painted. Goes on
    /// until the map has `desired_floor_tiles` of floor or `MAX_WALKS`
    /// diggers were dropped; tells whether the target was reached.
    pub fn central_attractor(
        &mut self,
        desired_floor_tiles: usize,
        start_x: i32,
        start_y: i32,
        rng: &mut RandomNumberGenerator,
        build_data: &mut BuildData,
    ) -> (reached: bool)
        requires
            old(build_data).wf(),
            old(build_data).map.width >= 4,
            old(build_data).map.height >= 4,
            digger_range(
                old(build_data).map.width as int,
                old(build_data).map.height as int,
                start_x as int,
                start_y as int,
            ),
        ensures
            *final(self) == *old(self),
            final(build_data).wf(),
            final(build_data).map.same_but_tiles(&old(build_data).map),
            dug(
                old(build_data).map.tiles@,
                final(build_data).map.tiles@,
                old(build_data).map.width as int,
                old(build_data).map.height as int,
            ),
            reached == (count_of(
                final(build_data).map.tiles@,
                TileType::Floor,
                final(build_data).map.tiles@.len() as int,
            ) >= desired_floor_tiles),
            walks_done(
                DLAAlgorithm::CentralAttractor,
                old(self).symmetry,
                old(self).brush_size as int,
                old(build_data).map.width as int,
                old(build_data).map.height as int,
                start_x as int,
                start_y as int,
                desired_floor_tiles as int,
                old(build_data).map.tiles@,
                final(build_data).map.tiles@,
                reached,
            ),
            final(build_data).spawn_list == old(build_data).spawn_list,
            final(build_data).start == old(build_data).start,
            final(build_data).rooms == old(build_data).rooms,
            final(build_data).history == old(build_data).history,
            final(build_data).record_history == old(build_data).record_history,
    {
        let ghost w = build_data.map.width as int;
        let ghost h = build_data.map.height as int;
        let ghost before = build_data.map.tiles@;
        let mut floor_tile_count = build_data.map.count_floor_tiles();
        let mut walks: u32 = 0;
        while floor_tile_count < desired_floor_tiles && walks < MAX_WALKS
            invariant
                *self == *old(self),
                build_data.wf(),
                build_data.map.same_but_tiles(&old(build_data).map),
                w == build_data.map.width,
                h == build_data.map.height,
                w >= 4,
                h >= 4,
                digger_range(w, h, start_x as int, start_y as int),
                before == old(build_data).map.tiles@,
                walks_made(
                    DLAAlgorithm::CentralAttractor,
                    self.symmetry,
                    self.brush_size as int,
                    w,
                    h,
                    start_x as int,
                    start_y as int,
                    desired_floor_tiles as int,
                    before,
                    build_data.map.tiles@,
                    walks as int,
                ),
                dug(before, build_data.map.tiles@, w, h),
                floor_tile_count == count_of(
                    build_data.map.tiles@,
                    TileType::Floor,
                    build_data.map.tiles@.len() as int,
                ),
                walks <= MAX_WALKS,
                build_data.spawn_list == old(build_data).spawn_list,
                build_data.start == old(build_data).start,
                build_data.rooms == old(build_data).rooms,
                build_data.history == old(build_data).history,
                build_data.record_history == old(build_data).record_history,
            decreases MAX_WALKS - walks,
        {
            let x = rng.roll_dice(1, build_data.map.width - 3) + 1;
            let y = rng.roll_dice(1, build_data.map.height - 3) + 1;
            let prev = DLABuilder::attract(&build_data.map, x, y, start_x, start_y);
            let ghost tiles_0 = build_data.map.tiles@;
            paint(&mut build_data.map, self.symmetry, self.brush_size, prev.0, prev.1);
            proof {
                lemma_dug_twice(before, tiles_0, build_data.map.tiles@, w, h);
            }
            proof {
                let tiles_1 = build_data.map.tiles@;
                assert(prev == attracted(tiles_0, w, h, x, y, start_x as int, start_y as int));
                assert(tiles_1 =~= brushed(
                    tiles_0,
                    self.symmetry,
                    self.brush_size as int,
                    w,
                    h,
                    prev.0 as int,
                    prev.1 as int,
                ));
                assert(one_walk(
                    DLAAlgorithm::CentralAttractor,
                    self.symmetry,
                    self.brush_size as int,
                    w,
                    h,
                    start_x as int,
                    start_y as int,
                    tiles_0,
                    tiles_1,
                ));
                assert(walks_made(
                    DLAAlgorithm::CentralAttractor,
                    self.symmetry,
                    self.brush_size as int,
                    w,
                    h,
                    start_x as int,
                    start_y as int,
                    desired_floor_tiles as int,
                    before,
                    tiles_0,
                    walks + 1 - 1,
                ));
                assert(walks_made(
                    DLAAlgorithm::CentralAttractor,
                    self.symmetry,
                    self.brush_size as int,
                    w,
                    h,
                    start_x as int,
                    start_y as int,
                    desired_floor_tiles as int,
                    before,
                    tiles_1,
                    walks + 1,
                ));
            }
            floor_tile_count = build_data.map.count_floor_tiles();
            walks += 1;
        }
        proof {
            assert(walks_done(
                DLAAlgorithm::CentralAttractor,
                self.symmetry,
                self.brush_size as int,
                w,
                h,
                start_x as int,
                start_y as int,
                desired_floor_tiles as int,
                before,
                build_data.map.tiles@,
                floor_tile_count >= desired_floor_tiles,
            ));
        }
        floor_tile_count >= desired_floor_tiles
    }

    /// Digs a seed in the middle of the map and lets the stage's algorithm
    /// grow floor from it until so many tiles in a hundred are floor as
    /// the stage asks for; tells whether that target was reached.
    pub fn build(&mut self, rng: &mut RandomNumberGenerator,
        build_data: &mut BuildData) -> (reached:
        bool)
        requires
            old(build_data).wf(),
            old(build_data).map.width >= 5,
            old(build_data).map.height >= 5,
            old(self).floor_percent <= 100,
        ensures
            *final(self) == *old(self),
            final(build_data).wf(),
            final(build_data).map.same_but_tiles(&old(build_data).map),
            dug(
                old(build_data).map.tiles@,
                final(build_data).map.tiles@,
                old(build_data).map.width as int,
                old(build_data).map.height as int,
            ),
            old(build_data).map.border_closed() ==> final(build_data).map.border_closed(),
            forall|i: int|
                0 <= i < final(build_data).map.tiles@.len() && DLABuilder::in_seed(
                    old(build_data).map.width / 2,
                    old(build_data).map.height / 2,
                    col_of(old(build_data).map.width as int, i),
                    row_of(old(build_data).map.width as int, i),
                ) ==> #[trigger] final(build_data).map.tiles@[i] == TileType::Floor,
            walks_done(
                old(self).algorithm,
                old(self).symmetry,
                old(self).brush_size as int,
                old(build_data).map.width as int,
                old(build_data).map.height as int,
                old(build_data).map.width / 2,
                old(build_data).map.height / 2,
                crate::drunkard::desired_floor(
                    old(build_data).map.width * old(build_data).map.height,
                    old(self).floor_percent as int,
                ),
                seeded_tiles(
                    old(build_data).map.tiles@,
                    old(build_data).map.width as int,
                    old(build_data).map.width / 2,
                    old(build_data).map.height / 2,
                ),
                final(build_data).map.tiles@,
                reached,
            ),
            final(build_data).history@.len() == old(build_data).history@.len()
                + if old(build_data).record_history {
                1int
            } else {
                0int
            },
            old(build_data).record_history ==> final(build_data).history@.last().tiles@
                == old(build_data).map.tiles@,
            reached == (count_of(
                final(build_data).map.tiles@,
                TileType::Floor,
                final(build_data).map.tiles@.len() as int,
            ) >= crate::drunkard::desired_floor(
                old(build_data).map.width * old(build_data).map.height,
                old(self).floor_percent as int,
            )),
            final(build_data).spawn_list == old(build_data).spawn_list,
            final(build_data).start == old(build_data).start,
            final(build_data).rooms == old(build_data).rooms,
            final(build_data).extends_history(old(build_data)),
    {
        let ghost w = build_data.map.width as int;
        let ghost h = build_data.map.height as int;
        let ghost before = build_data.map.tiles@;
        let (start_x, start_y) = build_data.map.center();
        build_data.take_snapshot();
        DLABuilder::seed_start(&mut build_data.map, start_x, start_y);
        let ghost seeded = build_data.map.tiles@;
        proof {
            assert(seeded =~= seeded_tiles(before, w, w / 2, h / 2));
            lemma_overlaid_dug(
                before,
                seeded,
                w,
                h,
                |cx: int, cy: int| DLABuilder::in_seed(start_x as int, start_y as int, cx, cy),
            );
            assert(w * h <= 0x1000_0000) by (nonlinear_arith)
                requires
                    1 <= w <= 16384,
                    1 <= h <= 16384,
            ;
            assert(0 <= (w * h) * self.floor_percent <= 0x1000_0000 * 100) by (nonlinear_arith)
                requires
                    0 <= w * h <= 0x1000_0000,
                    0 <= self.floor_percent <= 100,
            ;
        }
        let total_tiles: u64 = build_data.map.tiles.len() as u64;
        let desired_floor_tiles: usize = (total_tiles * (self.floor_percent as u64) / 100) as usize;
        let reached = match self.algorithm {
            DLAAlgorithm::WalkInwards => self.walk_inwards(desired_floor_tiles, rng, build_data),
            DLAAlgorithm::WalkOutwards => self.walk_outwards(
                desired_floor_tiles,
                start_x,
                start_y,
                rng,
                build_data,
            ),
            DLAAlgorithm::CentralAttractor => self.central_attractor(
                desired_floor_tiles,
                start_x,
                start_y,
                rng,
                build_data,
            ),
        };
        proof {
            let target = desired_floor_tiles as int;
            if self.algorithm == DLAAlgorithm::WalkInwards {
                let n = choose|n: int|
                    0 <= n <= MAX_WALKS && #[trigger] walks_made(
                        DLAAlgorithm::WalkInwards,
                        self.symmetry,
                        self.brush_size as int,
                        w,
                        h,
                        0,
                        0,
                        target,
                        seeded,
                        build_data.map.tiles@,
                        n,
                    ) && (reached || n == MAX_WALKS);
                lemma_inwards_from_anywhere(
                    self.symmetry,
                    self.brush_size as int,
                    w,
                    h,
                    0,
                    0,
                    w / 2,
                    h / 2,
                    target,
                    seeded,
                    build_data.map.tiles@,
                    n,
                );
            }
            assert(walks_done(
                self.algorithm,
                self.symmetry,
                self.brush_size as int,
                w,
                h,
                w / 2,
                h / 2,
                target,
                seeded,
                build_data.map.tiles@,
                reached,
            ));
            assert forall|i: int|
                0 <= i < build_data.map.tiles@.len() && DLABuilder::in_seed(
                    w / 2,
                    h / 2,
                    col_of(w, i),
                    row_of(w, i),
                ) implies #[trigger] build_data.map.tiles@[i] == TileType::Floor by {
                assert(seeded[i] == TileType::Floor);
            }
            lemma_dug_twice(before, seeded, build_data.map.tiles@, w, h);
            if old(build_data).map.border_closed() {
                lemma_dug_keeps_border(before, build_data.map.tiles@, w, h);
            }
        }
        reached
    }
}

impl InitialMapBuilder for DLABuilder {
    open spec fn initial_outcome(
        &self,
        before: &BuildData,
        after: &BuildData,
        result: Result<(), BuildError>,
    ) -> bool {
        match result {
            Err(error) => if self.floor_percent > 100 {
                error == BuildError::BadSettings
            } else {
                error == BuildError::MapTooSmall && (before.map.width < 5 || before.map.height
                    < 5)
            },
            Ok(_) => {
                &&& before.map.border_closed() ==> after.map.border_closed()
                &&& self.floor_percent <= 100
                &&& before.map.width >= 5
                &&& before.map.height >= 5
                &&& dug(
                    before.map.tiles@,
                    after.map.tiles@,
                    before.map.width as int,
                    before.map.height as int,
                )
                &&& exists|reached: bool| #[trigger]
                    walks_done(
                        self.algorithm,
                        self.symmetry,
                        self.brush_size as int,
                        before.map.width as int,
                        before.map.height as int,
                        before.map.width / 2,
                        before.map.height / 2,
                        crate::drunkard::desired_floor(
                            before.map.width * before.map.height,
                            self.floor_percent as int,
                        ),
                        seeded_tiles(
                            before.map.tiles@,
                            before.map.width as int,
                            before.map.width / 2,
                            before.map.height / 2,
                        ),
                        after.map.tiles@,
                        reached,
                    ) && reached == (count_of(
                        after.map.tiles@,
                        TileType::Floor,
                        after.map.tiles@.len() as int,
                    ) >= crate::drunkard::desired_floor(
                        before.map.width * before.map.height,
                        self.floor_percent as int,
                    ))
                &&& after.spawn_list == before.spawn_list
                &&& after.start == before.start
                &&& after.rooms == before.rooms
            },
        }
    }

    fn build_map(&mut self, rng: &mut RandomNumberGenerator, build_data: &mut BuildData) -> (result:
        Result<(), BuildError>)
        ensures
            result is Err <==> old(build_data).map.width < 5 || old(build_data).map.height < 5
                || old(self).floor_percent > 100,
    {
        if self.floor_percent > 100 {
            return Err(BuildError::BadSettings);
        }
        if build_data.map.width < 5 || build_data.map.height < 5 {
            return Err(BuildError::MapTooSmall);
        }
        self.build(rng, build_data);
        Ok(())
    }
}

} // verus!
