use crate::build_data::{BuildData, BuildError};
use crate::chain::MetaMapBuilder;
use crate::common::{spec_distance, DistanceAlgorithm};
use crate::position::Position;
use crate::spawner::{spawned, spawned_each, spawn_region, spawns_valid};
use crate::tile_map::{
    col_of, is_interior, lemma_index_cell, row_of, TileMap, TileType,
};
use rltk::RandomNumberGenerator;
use vstd::prelude::*;

verus! {

pub enum XStart {
    LEFT,
    CENTER,
    RIGHT,
}

pub enum YStart {
    TOP,
    CENTER,
    BOTTOM,
}

/// Puts the starting position on the floor tile nearest to a chosen part
/// of the map.
pub struct AreaStartingPosition {
    pub x: XStart,
    pub y: YStart,
}

/// The column that the search for a start begins at.
pub open spec fn seed_x(x: XStart, width: int) -> int {
    match x {
        XStart::LEFT => 1,
        XStart::CENTER => width / 2,
        XStart::RIGHT => width - 2,
    }
}

/// The row that the search for a start begins at.
pub open spec fn seed_y(y: YStart, height: int) -> int {
    match y {
        YStart::TOP => 1,
        YStart::CENTER => height / 2,
        YStart::BOTTOM => height - 2,
    }
}

/// The squared distance of the tile with index `i` from `(sx, sy)`.
pub open spec fn tile_distance(width: int, i: int, sx: int, sy: int) -> int {
    spec_distance(DistanceAlgorithm::Pythagoras, col_of(width, i), row_of(width, i), sx, sy)
}

/// Whether the tile with index `idx` is the first of the floor tiles that
/// are nearest to `(sx, sy)`.
pub open spec fn is_nearest_floor(
    tiles: Seq<TileType>,
    width: int,
    sx: int,
    sy: int,
    idx: int,
) -> bool {
    &&& 0 <= idx < tiles.len()
    &&& tiles[idx] == TileType::Floor
    &&& forall|j: int|
        0 <= j < tiles.len() && #[trigger] tiles[j] == TileType::Floor ==> tile_distance(
            width,
            idx,
            sx,
            sy,
        ) <= tile_distance(width, j, sx, sy)
    &&& forall|j: int|
        0 <= j < idx && #[trigger] tiles[j] == TileType::Floor ==> tile_distance(
            width,
            idx,
            sx,
            sy,
        ) < tile_distance(width, j, sx, sy)
}

/// Whether any tile is floor.
pub open spec fn has_floor(tiles: Seq<TileType>) -> bool {
    exists|i: int| 0 <= i < tiles.len() && tiles[i] == TileType::Floor
}

impl AreaStartingPosition {
    pub fn new(x: XStart, y: YStart) -> (stage: Box<AreaStartingPosition>)
        ensures
            stage.x == x,
            stage.y == y,
    {
        Box::new(AreaStartingPosition { x, y })
    }

    /// Tells the index of the first of the floor tiles nearest to `(sx,
    /// sy)`, if there is any floor.
    pub fn nearest_floor(map: &TileMap, sx: i32, sy: i32) -> (found: Option<usize>)
        requires
            map.wf(),
            -1 <= sx <= map.width,
            -1 <= sy <= map.height,
        ensures
            found is Some <==> has_floor(map.tiles@),
            found matches Some(idx) ==> is_nearest_floor(
                map.tiles@,
                map.width as int,
                sx as int,
                sy as int,
                idx as int,
            ),
    {
        let ghost w = map.width as int;
        let ghost h = map.height as int;
        let seed = Position { x: sx, y: sy };
        let mut found: Option<usize> = None;
        let mut best: i64 = 0;
        let mut idx: usize = 0;
        while idx < map.tiles.len()
            invariant
                map.wf(),
                w == map.width,
                h == map.height,
                seed == (Position { x: sx, y: sy }),
                -1 <= sx <= map.width,
                -1 <= sy <= map.height,
                idx <= map.tiles@.len(),
                found is None ==> forall|j: int| 0 <= j < idx ==> map.tiles@[j] != TileType::Floor,
                found matches Some(at) ==> {
                    &&& at < idx
                    &&& map.tiles@[at as int] == TileType::Floor
                    &&& best == tile_distance(w, at as int, sx as int, sy as int)
                    &&& forall|j: int|
                        0 <= j < idx && #[trigger] map.tiles@[j] == TileType::Floor ==> best
                            <= tile_distance(w, j, sx as int, sy as int)
                    &&& forall|j: int|
                        0 <= j < at && #[trigger] map.tiles@[j] == TileType::Floor ==> best
                            < tile_distance(w, j, sx as int, sy as int)
                },
            decreases map.tiles@.len() - idx,
        {
            if map.tiles[idx] == TileType::Floor {
                proof {
                    lemma_index_cell(w, h, idx as int);
                }
                let here = Position {
                    x: (idx % map.width as usize) as i32,
                    y: (idx / map.width as usize) as i32,
                };
                let d = DistanceAlgorithm::Pythagoras.apply(here, seed);
                let better = match found {
                    None => true,
                    Some(_) => d < best,
                };
                if better {
                    found = Some(idx);
                    best = d;
                }
            }
            idx += 1;
        }
        proof {
            if found is None {
                assert(!has_floor(map.tiles@));
            } else {
                assert(map.tiles@[found->0 as int] == TileType::Floor);
            }
        }
        found
    }

    /// Puts the starting position on the first of the floor tiles nearest
    /// to the part of the map that the stage was made for.
    pub fn build(&mut self, rng: &mut RandomNumberGenerator, build_data: &mut BuildData)
        requires
            old(build_data).wf(),
            has_floor(old(build_data).map.tiles@),
        ensures
            final(self).x == old(self).x,
            final(self).y == old(self).y,
            final(build_data).wf(),
            final(build_data).map == old(build_data).map,
            final(build_data).spawn_list == old(build_data).spawn_list,
            final(build_data).rooms == old(build_data).rooms,
            final(build_data).history == old(build_data).history,
            final(build_data).record_history == old(build_data).record_history,
            final(build_data).start_on_map(),
            is_nearest_floor(
                old(build_data).map.tiles@,
                old(build_data).map.width as int,
                seed_x(old(self).x, old(build_data).map.width as int),
                seed_y(old(self).y, old(build_data).map.height as int),
                final(build_data).start_index(),
            ),
            final(build_data).map.tiles@[final(build_data).start_index()] == TileType::Floor,
    {
        let sx = match self.x {
            XStart::LEFT => 1,
            XStart::CENTER => build_data.map.width / 2,
            XStart::RIGHT => build_data.map.width - 2,
        };
        let sy = match self.y {
            YStart::TOP => 1,
            YStart::CENTER => build_data.map.height / 2,
            YStart::BOTTOM => build_data.map.height - 2,
        };
        let idx = AreaStartingPosition::nearest_floor(&build_data.map, sx, sy).unwrap();
        proof {
            lemma_index_cell(
                build_data.map.width as int,
                build_data.map.height as int,
                idx as int,
            );
        }
        build_data.start = Some(
            Position {
                x: (idx % build_data.map.width as usize) as i32,
                y: (idx / build_data.map.width as usize) as i32,
            },
        );
    }
}

impl MetaMapBuilder for AreaStartingPosition {
    open spec fn meta_outcome(
        &self,
        before: &BuildData,
        after: &BuildData,
        result: Result<(), BuildError>,
    ) -> bool {
        match result {
            Err(error) => error == BuildError::NoFloor && (!has_floor(before.map.tiles@)),
            Ok(_) => {
                &&& !(!has_floor(before.map.tiles@))
                &&& after.map == before.map
                &&& after.spawn_list == before.spawn_list
                &&& after.rooms == before.rooms
                &&& after.start_on_map()
                &&& is_nearest_floor(
                    before.map.tiles@,
                    before.map.width as int,
                    seed_x(self.x, before.map.width as int),
                    seed_y(self.y, before.map.height as int),
                    after.start_index(),
                )
            },
        }
    }

    fn build_map(&mut self, rng: &mut RandomNumberGenerator, build_data: &mut BuildData) -> (result:
        Result<(), BuildError>)
        ensures
            result is Err <==> !has_floor(old(build_data).map.tiles@),
    {
        if build_data.map.count_floor_tiles() == 0 {
            proof {
                let tiles = build_data.map.tiles@;
                if has_floor(tiles) {
                    let i = choose|i: int| 0 <= i < tiles.len() && tiles[i] == TileType::Floor;
                    lemma_count_positive(tiles, i, tiles.len() as int);
                }
            }
            return Err(BuildError::NoFloor);
        }
        proof {
            let tiles = build_data.map.tiles@;
            lemma_count_zero(tiles, tiles.len() as int);
        }
        self.build(rng, build_data);
        Ok(())
    }
}

/// Where a tile among the first `n` is floor, the count of floor among
/// them is positive.
pub proof fn lemma_count_positive(tiles: Seq<TileType>, i: int, n: int)
    requires
        0 <= i < n <= tiles.len(),
        tiles[i] == TileType::Floor,
    ensures
        crate::tile_map::count_of(tiles, TileType::Floor, n) > 0,
    decreases n,
{
    if i < n - 1 {
        lemma_count_positive(tiles, i, n - 1);
    }
}

/// Where none of the first `n` tiles is floor, the count of floor among
/// them is zero.
pub proof fn lemma_count_zero(tiles: Seq<TileType>, n: int)
    requires
        0 <= n <= tiles.len(),
    ensures
        crate::tile_map::count_of(tiles, TileType::Floor, n) > 0 ==> has_floor(tiles),
    decreases n,
{
    if n > 0 {
        lemma_count_zero(tiles, n - 1);
        if tiles[n - 1] == TileType::Floor {
            assert(0 <= n - 1 < tiles.len() && tiles[n - 1] == TileType::Floor);
        }
    }
}

/// Asks for monsters region by region, the regions being the floor tiles
/// off the border with the same label.
pub struct VoronoiSpawning {
    /// The label of each tile, by its index: the value, cut to a whole
    /// number, of a cellular noise at the tile. A tile without a label
    /// has the label zero.
    pub noise: Vec<i32>,
}

/// The label of the tile with index `idx`.
pub open spec fn label_of(noise: Seq<i32>, idx: int) -> i32 {
    if 0 <= idx < noise.len() {
        noise[idx]
    } else {
        0
    }
}

/// Whether the tile with index `idx` belongs to a region: it is floor and
/// lies off the border.
pub open spec fn in_regions(tiles: Seq<TileType>, width: int, height: int, idx: int) -> bool {
    &&& 0 <= idx < tiles.len()
    &&& tiles[idx] == TileType::Floor
    &&& is_interior(width, height, col_of(width, idx), row_of(width, idx))
}

/// Whether `regions` lists, each under its label, the tiles that belong to
/// a region: every such tile under its own label and no other tile; no
/// label twice and none without a tile; the tiles of a region in rising
/// order, and the regions in the order of their first tiles.
pub open spec fn is_grouping(
    regions: Seq<(i32, Vec<usize>)>,
    tiles: Seq<TileType>,
    noise: Seq<i32>,
    width: int,
    height: int,
) -> bool {
    &&& forall|r: int, k: int|
        0 <= r < regions.len() && 0 <= k < regions[r].1@.len() ==> in_regions(
            tiles,
            width,
            height,
            #[trigger] regions[r].1@[k] as int,
        ) && label_of(noise, regions[r].1@[k] as int) == regions[r].0
    &&& forall|r: int, s: int| 0 <= r < s < regions.len() ==> regions[r].0 != regions[s].0
    &&& forall|r: int, j: int, k: int|
        0 <= r < regions.len() && 0 <= j < k < regions[r].1@.len() ==> regions[r].1@[j]
            < regions[r].1@[k]
    &&& forall|idx: int|
        in_regions(tiles, width, height, idx) ==> exists|r: int|
            0 <= r < regions.len() && (#[trigger] regions[r]).0 == label_of(noise, idx)
                && regions[r].1@.contains(idx as usize)
    &&& forall|r: int| 0 <= r < regions.len() ==> (#[trigger] regions[r]).1@.len() > 0
    &&& forall|r: int, s: int|
        0 <= r < s < regions.len() ==> (#[trigger] regions[r]).1@[0] < (#[trigger] regions[s]).1@[0]
}

/// The tiles of each region, in the order of the regions.
pub open spec fn areas_of(regions: Seq<(i32, Vec<usize>)>) -> Seq<Seq<usize>> {
    Seq::new(regions.len(), |r: int| regions[r].1@)
}

impl VoronoiSpawning {
    /// A stage for which all tiles have the same label.
    pub fn new() -> (stage: Box<VoronoiSpawning>)
        ensures
            stage.noise@.len() == 0,
    {
        Box::new(VoronoiSpawning { noise: Vec::new() })
    }

    /// A stage with a label for each tile.
    pub fn with_noise(noise: Vec<i32>) -> (stage: Box<VoronoiSpawning>)
        ensures
            stage.noise == noise,
    {
        Box::new(VoronoiSpawning { noise })
    }

    /// The label of the tile with index `idx`.
    pub fn label(&self, idx: usize) -> (label: i32)
        ensures
            label == label_of(self.noise@, idx as int),
    {
        if idx < self.noise.len() {
            self.noise[idx]
        } else {
            0
        }
    }

    /// The tiles that belong to a region and have the label `label`, in
    /// rising order.
    pub fn region(&self, map: &TileMap, label: i32) -> (area: Vec<usize>)
        requires
            map.wf(),
        ensures
            forall|k: int|
                0 <= k < area@.len() ==> in_regions(
                    map.tiles@,
                    map.width as int,
                    map.height as int,
                    #[trigger] area@[k] as int,
                ) && label_of(self.noise@, area@[k] as int) == label,
            forall|j: int, k: int| 0 <= j < k < area@.len() ==> area@[j] < area@[k],
            forall|idx: int|
                in_regions(map.tiles@, map.width as int, map.height as int, idx) && label_of(
                    self.noise@,
                    idx,
                ) == label ==> area@.contains(idx as usize),
    {
        let ghost w = map.width as int;
        let ghost h = map.height as int;
        let mut area: Vec<usize> = Vec::new();
        let mut idx: usize = 0;
        while idx < map.tiles.len()
            invariant
                map.wf(),
                w == map.width,
                h == map.height,
                idx <= map.tiles@.len(),
                forall|k: int|
                    0 <= k < area@.len()
                        ==> in_regions(map.tiles@, w, h, #[trigger] area@[k] as int)
                        && label_of(self.noise@, area@[k] as int) == label && area@[k] < idx,
                forall|j: int, k: int| 0 <= j < k < area@.len() ==> area@[j] < area@[k],
                forall|i: int|
                    0 <= i < idx && in_regions(map.tiles@, w, h, i) && label_of(self.noise@, i)
                        == label ==> area@.contains(i as usize),
            decreases map.tiles@.len() - idx,
        {
            proof {
                lemma_index_cell(w, h, idx as int);
            }
            let x = (idx % map.width as usize) as i32;
            let y = (idx / map.width as usize) as i32;
            let ghost before = area@;
            if map.tiles[idx] == TileType::Floor && map.in_bounds(x, 0, y, 0) && self.label(idx)
                == label {
                area.push(idx);
            }
            proof {
                assert forall|i: int|
                    0 <= i < idx + 1 && in_regions(map.tiles@, w, h, i) && label_of(self.noise@, i)
                        == label implies area@.contains(i as usize) by {
                    if i < idx {
                        assert(before.contains(i as usize));
                        let k = choose|k: int| 0 <= k < before.len() && before[k] == i as usize;
                        assert(area@[k] == i as usize);
                    } else {
                        assert(area@[area@.len() - 1] == idx);
                    }
                }
            }
            idx += 1;
        }
        area
    }

    /// Groups the floor tiles off the border by their labels, the groups
    /// in the order in which their labels first occur.
    pub fn regions(&self, map: &TileMap) -> (regions: Vec<(i32, Vec<usize>)>)
        requires
            map.wf(),
        ensures
            is_grouping(regions@, map.tiles@, self.noise@, map.width as int, map.height as int),
    {
        let ghost w = map.width as int;
        let ghost h = map.height as int;
        let mut regions: Vec<(i32, Vec<usize>)> = Vec::new();
        let mut idx: usize = 0;
        while idx < map.tiles.len()
            invariant
                map.wf(),
                w == map.width,
                h == map.height,
                idx <= map.tiles@.len(),
                forall|r: int, k: int|
                    0 <= r < regions@.len() && 0 <= k < regions@[r].1@.len() ==> in_regions(
                        map.tiles@,
                        w,
                        h,
                        #[trigger] regions@[r].1@[k] as int,
                    ) && label_of(self.noise@, regions@[r].1@[k] as int) == regions@[r].0,
                forall|r: int, s: int| 0 <= r < s < regions@.len()
                    ==> regions@[r].0 != regions@[s].0,
                forall|r: int|
                    0 <= r < regions@.len() ==> (#[trigger] regions@[r]).1@.len() > 0
                        && regions@[r].1@[0] < idx,
                forall|r: int, s: int|
                    0 <= r < s < regions@.len() ==> (#[trigger] regions@[r]).1@[0] < (
                    #[trigger] regions@[s]).1@[0],
                forall|r: int, j: int, k: int|
                    0 <= r < regions@.len() && 0 <= j < k < regions@[r].1@.len()
                        ==> regions@[r].1@[j] < regions@[r].1@[k],
                forall|r: int, i: int|
                    0 <= r < regions@.len() && in_regions(map.tiles@, w, h, i) && label_of(
                        self.noise@,
                        i,
                    ) == (#[trigger] regions@[r]).0 ==> #[trigger] regions@[r].1@.contains(
                        i as usize,
                    ),
                forall|i: int|
                    0 <= i < idx && in_regions(map.tiles@, w, h, i) ==> exists|r: int|
                        0 <= r < regions@.len() && (#[trigger] regions@[r]).0 == label_of(
                            self.noise@,
                            i,
                        ),
            decreases map.tiles@.len() - idx,
        {
            proof {
                lemma_index_cell(w, h, idx as int);
            }
            let x = (idx % map.width as usize) as i32;
            let y = (idx / map.width as usize) as i32;
            if map.tiles[idx] == TileType::Floor && map.in_bounds(x, 0, y, 0) {
                let label = self.label(idx);
                let mut known = false;
                let mut r: usize = 0;
                while r < regions.len()
                    invariant
                        r <= regions@.len(),
                        known == (exists|s: int| 0 <= s < r && (#[trigger] regions@[s]).0 == label),
                    decreases regions@.len() - r,
                {
                    if regions[r].0 == label {
                        known = true;
                    }
                    r += 1;
                }
                if !known {
                    let ghost before = regions@;
                    let area = self.region(map, label);
                    proof {
                        assert(area@.contains(idx));
                        let at = choose|k: int| 0 <= k < area@.len() && area@[k] == idx;
                        assert(area@[0] <= area@[at]);
                        if area@[0] < idx {
                            let early = area@[0] as int;
                            assert(in_regions(map.tiles@, w, h, early));
                            let r0 = choose|r: int|
                                0 <= r < before.len() && (#[trigger] before[r]).0 == label_of(
                                    self.noise@,
                                    early,
                                );
                            assert(before[r0].0 == label);
                        }
                        assert(area@[0] == idx);
                    }
                    regions.push((label, area));
                    proof {
                        assert forall|i: int|
                            0 <= i < idx + 1 && in_regions(map.tiles@, w, h, i) implies exists|
                            r: int,
                        |
                            0 <= r < regions@.len() && (#[trigger] regions@[r]).0 == label_of(
                                self.noise@,
                                i,
                            ) by {
                            if i < idx {
                                let r0 = choose|r: int|
                                    0 <= r < before.len() && (#[trigger] before[r]).0 == label_of(
                                        self.noise@,
                                        i,
                                    );
                                assert(regions@[r0].0 == label_of(self.noise@, i));
                            } else {
                                assert(regions@[regions@.len() - 1].0 == label);
                            }
                        }
                    }
                }
            }
            idx += 1;
        }
        proof {
            assert forall|i: int| in_regions(map.tiles@, w, h, i) implies exists|r: int|
                0 <= r < regions@.len() && (#[trigger] regions@[r]).0 == label_of(self.noise@, i)
                    && regions@[r].1@.contains(i as usize) by {
                let r0 = choose|r: int|
                    0 <= r < regions@.len() && (#[trigger] regions@[r]).0 == label_of(
                        self.noise@,
                        i,
                    );
                assert(regions@[r0].1@.contains(i as usize));
            }
        }
        regions
    }

    /// Asks for monsters in each region in turn, at most one per tile.
    pub fn build(&mut self, rng: &mut RandomNumberGenerator, build_data: &mut BuildData)
        requires
            old(build_data).wf(),
        ensures
            final(self).noise == old(self).noise,
            final(build_data).wf(),
            final(build_data).map == old(build_data).map,
            final(build_data).start == old(build_data).start,
            final(build_data).rooms == old(build_data).rooms,
            final(build_data).history == old(build_data).history,
            final(build_data).record_history == old(build_data).record_history,
            exists|regions: Seq<(i32, Vec<usize>)>|
                is_grouping(
                    regions,
                    old(build_data).map.tiles@,
                    old(self).noise@,
                    old(build_data).map.width as int,
                    old(build_data).map.height as int,
                ) && #[trigger] spawned_each(
                    old(build_data).map.tiles@,
                    old(build_data).map.depth as int,
                    areas_of(regions),
                    regions.len() as int,
                    old(build_data).spawn_list@,
                    final(build_data).spawn_list@,
                ),
            old(build_data).spawn_list@.len() <= final(build_data).spawn_list@.len(),
            forall|i: int|
                0 <= i < old(build_data).spawn_list@.len() ==> final(build_data).spawn_list@[i]
                    == old(build_data).spawn_list@[i],
            forall|i: int|
                old(build_data).spawn_list@.len() <= i < final(build_data).spawn_list@.len()
                    ==> in_regions(
                    old(build_data).map.tiles@,
                    old(build_data).map.width as int,
                    old(build_data).map.height as int,
                    (#[trigger] final(build_data).spawn_list@[i]).0 as int,
                ),
            spawns_valid(old(build_data).map.tiles@, old(build_data).spawn_list@) ==> spawns_valid(
                final(build_data).map.tiles@,
                final(build_data).spawn_list@,
            ),
    {
        let regions = self.regions(&build_data.map);
        let ghost w = build_data.map.width as int;
        let ghost h = build_data.map.height as int;
        let mut r: usize = 0;
        while r < regions.len()
            invariant
                self.noise == old(self).noise,
                build_data.wf(),
                build_data.map == old(build_data).map,
                w == build_data.map.width,
                h == build_data.map.height,
                build_data.start == old(build_data).start,
                build_data.rooms == old(build_data).rooms,
                build_data.history == old(build_data).history,
                build_data.record_history == old(build_data).record_history,
                is_grouping(regions@, build_data.map.tiles@, self.noise@, w, h),
                r <= regions@.len(),
                spawned_each(
                    build_data.map.tiles@,
                    build_data.map.depth as int,
                    areas_of(regions@),
                    r as int,
                    old(build_data).spawn_list@,
                    build_data.spawn_list@,
                ),
                old(build_data).spawn_list@.len() <= build_data.spawn_list@.len(),
                forall|i: int|
                    0 <= i < old(build_data).spawn_list@.len()
                        ==> build_data.spawn_list@[i] == old(build_data).spawn_list@[i],
                forall|i: int|
                    old(build_data).spawn_list@.len() <= i < build_data.spawn_list@.len()
                        ==> in_regions(
                        build_data.map.tiles@,
                        w,
                        h,
                        (#[trigger] build_data.spawn_list@[i]).0 as int,
                    ),
                spawns_valid(old(build_data).map.tiles@, old(build_data).spawn_list@)
                    ==> spawns_valid(build_data.map.tiles@, build_data.spawn_list@),
            decreases regions@.len() - r,
        {
            let depth = build_data.map.depth;
            let ghost list_then = build_data.spawn_list@;
            spawn_region(&build_data.map, rng, &regions[r].1, depth, &mut build_data.spawn_list);
            proof {
                assert(areas_of(regions@)[r as int] == regions@[r as int].1@);
                assert(spawned(
                    build_data.map.tiles@,
                    depth as int,
                    areas_of(regions@)[r as int],
                    list_then,
                    build_data.spawn_list@,
                ));
                assert(spawned_each(
                    build_data.map.tiles@,
                    depth as int,
                    areas_of(regions@),
                    r as int,
                    old(build_data).spawn_list@,
                    list_then,
                ));
                assert(spawned(
                    build_data.map.tiles@,
                    depth as int,
                    areas_of(regions@)[r + 1 - 1],
                    list_then,
                    build_data.spawn_list@,
                ));
                assert(spawned_each(
                    build_data.map.tiles@,
                    depth as int,
                    areas_of(regions@),
                    r + 1,
                    old(build_data).spawn_list@,
                    build_data.spawn_list@,
                ));
                assert forall|i: int|
                    old(build_data).spawn_list@.len() <= i < build_data.spawn_list@.len()
                    implies in_regions(
                    build_data.map.tiles@,
                    w,
                    h,
                    (#[trigger] build_data.spawn_list@[i]).0 as int,
                ) by {
                    if i < list_then.len() {
                        assert(build_data.spawn_list@[i] == list_then[i]);
                    } else {
                        let idx = build_data.spawn_list@[i].0;
                        assert(regions@[r as int].1@.contains(idx));
                        let k = choose|k: int|
                            0 <= k < regions@[r as int].1@.len() && regions@[r as int].1@[k] == idx;
                        assert(in_regions(
                            build_data.map.tiles@,
                            w,
                            h,
                            regions@[r as int].1@[k] as int,
                        ));
                    }
                }
            }
            r += 1;
        }
    }
}

impl MetaMapBuilder for VoronoiSpawning {
    open spec fn meta_outcome(
        &self,
        before: &BuildData,
        after: &BuildData,
        result: Result<(), BuildError>,
    ) -> bool {
        &&& result is Ok
        &&& spawns_valid(before.map.tiles@, before.spawn_list@) ==> spawns_valid(
            after.map.tiles@,
            after.spawn_list@,
        )
        &&& after.map == before.map
        &&& after.start == before.start
        &&& after.rooms == before.rooms
        &&& after.history == before.history
        &&& exists|regions: Seq<(i32, Vec<usize>)>|
            is_grouping(
                regions,
                before.map.tiles@,
                self.noise@,
                before.map.width as int,
                before.map.height as int,
            )
                && #[trigger] spawned_each(
                before.map.tiles@,
                before.map.depth as int,
                areas_of(regions),
                regions.len() as int,
                before.spawn_list@,
                after.spawn_list@,
            )
    }

    fn build_map(&mut self, rng: &mut RandomNumberGenerator, build_data: &mut BuildData) -> (result:
        Result<(), BuildError>)
        ensures
            result is Ok,
    {
        self.build(rng, build_data);
        Ok(())
    }
}

} // verus!
