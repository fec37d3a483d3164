use crate::area_based_gen::{AreaStartingPosition, VoronoiSpawning, XStart, YStart};
use crate::bsp_dungeon::BspDungeonBuilder;
use crate::bsp_interior::BspInteriorBuilder;
use crate::build_data::{BuildData, BuildError};
use crate::cellular_automata::CellularAutomataBuilder;
use crate::common::{
    exit_candidate, tile_distances, wall_mask, CullUnreachable, DistantExit,
};
use crate::flood::{lemma_start_is_reached, DEFAULT_FLOOD_DEPTH, UNREACHED};
use crate::dla::DLABuilder;
use crate::drunkard::DrunkardsWalkBuilder;
use crate::maze::MazeBuilder;
use crate::prefab_builder::prefab_sections::underground_fort;
use crate::prefab_builder::PrefabBuilder;
use crate::room_based_gen::{RoomBasedSpawner, RoomBasedStairs, RoomBasedStartingPosition};
use crate::simple_map::SimpleMapBuilder;
use crate::tile_map::{closed_border, col_of, on_border, row_of, TileType};
use crate::voronoi::VoronoiBuilder;
use crate::waveform_collapse::WaveformCollapseBuilder;
use rltk::RandomNumberGenerator;
use vstd::prelude::*;

verus! {

/// A stage that carves a level out of a fresh grid. A chain has exactly one.
pub trait InitialMapBuilder {
    /// Whether `after` and `result` are what a run of the stage can make
    /// of `before`: the error where the stage refuses, its work on the
    /// record where it does not.
    spec fn initial_outcome(
        &self,
        before: &BuildData,
        after: &BuildData,
        result: Result<(), BuildError>,
    ) -> bool;

    /// Runs the stage, or refuses with an error and leaves the map, the
    /// start, the rooms and the spawn list as they were.
    fn build_map(&mut self, rng: &mut RandomNumberGenerator, build_data: &mut BuildData) -> (result:
        Result<(), BuildError>)
        requires
            old(build_data).wf(),
        ensures
            final(build_data).wf(),
            final(build_data).map.same_shape(&old(build_data).map),
            final(build_data).extends_history(old(build_data)),
            result is Err ==> final(build_data).same_but_history(old(build_data)),
            old(self).initial_outcome(old(build_data), final(build_data), result),
    ;
}

/// A stage that works on what earlier stages left. A chain has any number,
/// run in the order in which they were added.
pub trait MetaMapBuilder {
    /// Whether `after` and `result` are what a run of the stage can make
    /// of `before`: the error where the stage refuses, its work on the
    /// record where it does not.
    spec fn meta_outcome(
        &self,
        before: &BuildData,
        after: &BuildData,
        result: Result<(), BuildError>,
    ) -> bool;

    /// Runs the stage, or refuses with an error and leaves the map, the
    /// start, the rooms and the spawn list as they were.
    fn build_map(&mut self, rng: &mut RandomNumberGenerator, build_data: &mut BuildData) -> (result:
        Result<(), BuildError>)
        requires
            old(build_data).wf(),
        ensures
            final(build_data).wf(),
            final(build_data).map.same_shape(&old(build_data).map),
            final(build_data).extends_history(old(build_data)),
            result is Err ==> final(build_data).same_but_history(old(build_data)),
            old(self).meta_outcome(old(build_data), final(build_data), result),
    ;
}

/// The initial stages that a chain can start with.
pub enum InitialStage {
    SimpleMap(Box<SimpleMapBuilder>),
    BspDungeon(Box<BspDungeonBuilder>),
    BspInterior(Box<BspInteriorBuilder>),
    CellularAutomata(Box<CellularAutomataBuilder>),
    DiffusionLimitedAggregation(Box<DLABuilder>),
    DrunkardsWalk(Box<DrunkardsWalkBuilder>),
    Maze(Box<MazeBuilder>),
    Voronoi(Box<VoronoiBuilder>),
    Prefab(Box<PrefabBuilder>),
}

/// The stages that a chain can go on with.
pub enum MetaStage {
    AreaStartingPosition(Box<AreaStartingPosition>),
    VoronoiSpawning(Box<VoronoiSpawning>),
    CullUnreachable(Box<CullUnreachable>),
    DistantExit(Box<DistantExit>),
    RoomBasedSpawner(Box<RoomBasedSpawner>),
    RoomBasedStartingPosition(Box<RoomBasedStartingPosition>),
    RoomBasedStairs(Box<RoomBasedStairs>),
    CellularAutomata(Box<CellularAutomataBuilder>),
    Prefab(Box<PrefabBuilder>),
    WaveformCollapse(Box<WaveformCollapseBuilder>),
}

impl InitialMapBuilder for InitialStage {
    open spec fn initial_outcome(
        &self,
        before: &BuildData,
        after: &BuildData,
        result: Result<(), BuildError>,
    ) -> bool {
        match self {
            InitialStage::SimpleMap(stage) => stage.initial_outcome(before, after, result),
            InitialStage::BspDungeon(stage) => stage.initial_outcome(before, after, result),
            InitialStage::BspInterior(stage) => stage.initial_outcome(before, after, result),
            InitialStage::CellularAutomata(stage) => stage.initial_outcome(before, after, result),
            InitialStage::DiffusionLimitedAggregation(stage) => stage.initial_outcome(
                before,
                after,
                result,
            ),
            InitialStage::DrunkardsWalk(stage) => stage.initial_outcome(before, after, result),
            InitialStage::Maze(stage) => stage.initial_outcome(before, after, result),
            InitialStage::Voronoi(stage) => stage.initial_outcome(before, after, result),
            InitialStage::Prefab(stage) => stage.initial_outcome(before, after, result),
        }
    }

    fn build_map(&mut self, rng: &mut RandomNumberGenerator, build_data: &mut BuildData) -> (result:
        Result<(), BuildError>) {
        match self {
            InitialStage::SimpleMap(stage) => stage.build_map(rng, build_data),
            InitialStage::BspDungeon(stage) => stage.build_map(rng, build_data),
            InitialStage::BspInterior(stage) => stage.build_map(rng, build_data),
            InitialStage::CellularAutomata(stage) => InitialMapBuilder::build_map(
                &mut **stage,
                rng,
                build_data,
            ),
            InitialStage::DiffusionLimitedAggregation(stage) => stage.build_map(rng, build_data),
            InitialStage::DrunkardsWalk(stage) => stage.build_map(rng, build_data),
            InitialStage::Maze(stage) => stage.build_map(rng, build_data),
            InitialStage::Voronoi(stage) => stage.build_map(rng, build_data),
            InitialStage::Prefab(stage) => InitialMapBuilder::build_map(
                &mut **stage,
                rng,
                build_data,
            ),
        }
    }
}

impl MetaMapBuilder for MetaStage {
    open spec fn meta_outcome(
        &self,
        before: &BuildData,
        after: &BuildData,
        result: Result<(), BuildError>,
    ) -> bool {
        match self {
            MetaStage::AreaStartingPosition(stage) => stage.meta_outcome(before, after, result),
            MetaStage::VoronoiSpawning(stage) => stage.meta_outcome(before, after, result),
            MetaStage::CullUnreachable(stage) => stage.meta_outcome(before, after, result),
            MetaStage::DistantExit(stage) => stage.meta_outcome(before, after, result),
            MetaStage::RoomBasedSpawner(stage) => stage.meta_outcome(before, after, result),
            MetaStage::RoomBasedStartingPosition(stage) => stage.meta_outcome(
                before,
                after,
                result,
            ),
            MetaStage::RoomBasedStairs(stage) => stage.meta_outcome(before, after, result),
            MetaStage::CellularAutomata(stage) => stage.meta_outcome(before, after, result),
            MetaStage::Prefab(stage) => stage.meta_outcome(before, after, result),
            MetaStage::WaveformCollapse(stage) => stage.meta_outcome(before, after, result),
        }
    }

    fn build_map(&mut self, rng: &mut RandomNumberGenerator, build_data: &mut BuildData) -> (result:
        Result<(), BuildError>) {
        match self {
            MetaStage::AreaStartingPosition(stage) => stage.build_map(rng, build_data),
            MetaStage::VoronoiSpawning(stage) => stage.build_map(rng, build_data),
            MetaStage::CullUnreachable(stage) => stage.build_map(rng, build_data),
            MetaStage::DistantExit(stage) => stage.build_map(rng, build_data),
            MetaStage::RoomBasedSpawner(stage) => stage.build_map(rng, build_data),
            MetaStage::RoomBasedStartingPosition(stage) => stage.build_map(rng, build_data),
            MetaStage::RoomBasedStairs(stage) => stage.build_map(rng, build_data),
            MetaStage::CellularAutomata(stage) => MetaMapBuilder::build_map(
                &mut **stage,
                rng,
                build_data,
            ),
            MetaStage::Prefab(stage) => MetaMapBuilder::build_map(&mut **stage, rng, build_data),
            MetaStage::WaveformCollapse(stage) => stage.build_map(rng, build_data),
        }
    }
}

/// Whether `end` is what the first `n` of `builders`, each run once in its
/// turn and none refusing, can make of `start`.
pub open spec fn ran_through(
    builders: Seq<MetaStage>,
    n: int,
    start: BuildData,
    end: BuildData,
) -> bool
    decreases n,
{
    if n <= 0 {
        end == start
    } else {
        exists|mid: BuildData|
            ran_through(builders, n - 1, start, mid) && #[trigger] builders[n - 1].meta_outcome(
                &mid,
                &end,
                Ok(()),
            )
    }
}

/// Whether `end` is what the first `n` of `builders` can make of the
/// work of `starter` on `start`, none of these stages refusing.
pub open spec fn chain_ran(
    starter: InitialStage,
    builders: Seq<MetaStage>,
    n: int,
    start: BuildData,
    end: BuildData,
) -> bool {
    exists|first: BuildData|
        starter.initial_outcome(&start, &first, Ok(())) && #[trigger] ran_through(
            builders,
            n,
            first,
            end,
        )
}

/// Whether `end` and `result` are what a run of the chain can make of
/// `start`: the work of all its stages in their order, or that of the
/// stages before the first that refused, with the error of that one.
pub open spec fn chain_outcome(
    starter: InitialStage,
    builders: Seq<MetaStage>,
    start: BuildData,
    end: BuildData,
    result: Result<(), BuildError>,
) -> bool {
    match result {
        Ok(_) => chain_ran(starter, builders, builders.len() as int, start, end),
        Err(error) => starter.initial_outcome(&start, &end, Err(error)) || exists|
            n: int,
            last: BuildData,
        |
            0 <= n < builders.len() && #[trigger] chain_ran(starter, builders, n, start, last)
                && builders[n].meta_outcome(&last, &end, Err(error)),
    }
}

/// A chain of stages for one level: one initial stage, then any number of
/// stages that work on what it made, and the record that they all work on.
pub struct BuilderChain {
    pub starter: Option<InitialStage>,
    pub builders: Vec<MetaStage>,
    pub build_data: BuildData,
}

impl BuilderChain {
    /// A chain without stages for a level of the standard size at depth
    /// `new_depth`, all of it wall, its history recorded.
    pub fn new(new_depth: i32) -> (chain: BuilderChain)
        ensures
            chain.starter is None,
            chain.builders@.len() == 0,
            chain.build_data.wf(),
            chain.build_data.map.width == crate::tile_map::MAPWIDTH,
            chain.build_data.map.height == crate::tile_map::MAPHEIGHT,
            chain.build_data.map.depth == new_depth,
            forall|i: int|
                0 <= i < chain.build_data.map.tiles@.len() ==> chain.build_data.map.tiles@[i]
                    == TileType::Wall,
            chain.build_data.spawn_list@.len() == 0,
            chain.build_data.start is None,
            chain.build_data.rooms is None,
            chain.build_data.history@.len() == 0,
            chain.build_data.record_history,
    {
        BuilderChain::recording(new_depth, true)
    }

    /// A chain without stages for a level of the standard size at depth
    /// `new_depth`, all of it wall, that records its history or not.
    pub fn recording(new_depth: i32, record_history: bool) -> (chain: BuilderChain)
        ensures
            chain.starter is None,
            chain.builders@.len() == 0,
            chain.build_data.wf(),
            chain.build_data.map.width == crate::tile_map::MAPWIDTH,
            chain.build_data.map.height == crate::tile_map::MAPHEIGHT,
            chain.build_data.map.depth == new_depth,
            forall|i: int|
                0 <= i < chain.build_data.map.tiles@.len() ==> chain.build_data.map.tiles@[i]
                    == TileType::Wall,
            chain.build_data.spawn_list@.len() == 0,
            chain.build_data.start is None,
            chain.build_data.rooms is None,
            chain.build_data.history@.len() == 0,
            chain.build_data.record_history == record_history,
    {
        BuilderChain {
            starter: None,
            builders: Vec::new(),
            build_data: BuildData::new(new_depth, record_history),
        }
    }

    /// Gives the chain its initial stage. A chain takes one only.
    pub fn start_with(self, starter: InitialStage) -> (chain: BuilderChain)
        requires
            self.starter is None,
        ensures
            chain.starter == Some(starter),
            chain.builders == self.builders,
            chain.build_data == self.build_data,
    {
        let mut chain = self;
        chain.starter = Some(starter);
        chain
    }

    /// Adds a stage at the end of the chain.
    pub fn with(self, metabuilder: MetaStage) -> (chain: BuilderChain)
        ensures
            chain.starter == self.starter,
            chain.builders@ == self.builders@.push(metabuilder),
            chain.build_data == self.build_data,
    {
        let mut chain = self;
        chain.builders.push(metabuilder);
        chain
    }

    /// Runs the initial stage and then the other stages in the order in
    /// which they were added, each once, all on the chain's record. Stops
    /// at the first stage that refuses, and tells why it did.
    pub fn build_map(&mut self, rng: &mut RandomNumberGenerator) -> (result: Result<(), BuildError>)
        requires
            old(self).starter is Some,
            old(self).build_data.wf(),
        ensures
            final(self).starter is Some,
            final(self).builders@.len() == old(self).builders@.len(),
            final(self).build_data.wf(),
            final(self).build_data.map.same_shape(&old(self).build_data.map),
            final(self).build_data.extends_history(&old(self).build_data),
            chain_outcome(
                old(self).starter->0,
                old(self).builders@,
                old(self).build_data,
                final(self).build_data,
                result,
            ),
    {
        let ghost starter = self.starter->0;
        let ghost builders = self.builders@;
        let ghost start = self.build_data;
        match &mut self.starter {
            None => {},
            Some(stage) => {
                let started = stage.build_map(rng, &mut self.build_data);
                if let Err(error) = started {
                    return Err(error);
                }
            },
        }
        let ghost first = self.build_data;
        proof {
            assert(ran_through(builders, 0, first, self.build_data));
            assert(chain_ran(starter, builders, 0, start, self.build_data));
        }
        let mut i: usize = 0;
        while i < self.builders.len()
            invariant
                self.starter is Some,
                starter == old(self).starter->0,
                builders == old(self).builders@,
                start == old(self).build_data,
                self.builders@.len() == builders.len(),
                forall|j: int| i <= j < builders.len() ==> self.builders@[j] == builders[j],
                self.build_data.wf(),
                self.build_data.map.same_shape(&start.map),
                self.build_data.extends_history(&start),
                i <= self.builders@.len(),
                starter.initial_outcome(&start, &first, Ok(())),
                ran_through(builders, i as int, first, self.build_data),
            decreases self.builders@.len() - i,
        {
            let ghost last = self.build_data;
            let ran = self.builders[i].build_map(rng, &mut self.build_data);
            if let Err(error) = ran {
                proof {
                    assert(chain_ran(starter, builders, i as int, start, last));
                    assert(builders[i as int].meta_outcome(&last, &self.build_data, Err(error)));
                }
                return Err(error);
            }
            proof {
                assert(builders[i + 1 - 1].meta_outcome(&last, &self.build_data, Ok(())));
                assert(ran_through(builders, i + 1 - 1, first, last));
                assert(ran_through(builders, i + 1, first, self.build_data));
            }
            i += 1;
        }
        proof {
            assert(chain_ran(starter, builders, builders.len() as int, start, self.build_data));
        }
        Ok(())
    }
}

/// The chains that the game knows.
pub enum BuilderChains {
    SimpleMap,
    BspDungeon,
    BspInterior,
    CellularAutomata,
    DiffusionLimitedAggregation,
    DrunkardsWalk,
    Maze,
    Prefab,
    Voronoi,
}

/// The three stages that every chain with rooms ends with.
pub open spec fn room_stages(builders: Seq<MetaStage>) -> bool {
    &&& builders.len() == 3
    &&& builders[0] is RoomBasedSpawner
    &&& builders[1] is RoomBasedStartingPosition
    &&& builders[2] is RoomBasedStairs
}

/// The four stages that every chain without rooms ends with, the last
/// four of `builders`: the start nearest to the middle of the map, the
/// cull, the spawns by the regions that `noise` labels, and the exit.
pub open spec fn area_stages(builders: Seq<MetaStage>, noise: Seq<i32>) -> bool {
    let n = builders.len() - 4;
    &&& n >= 0
    &&& builders[n] matches MetaStage::AreaStartingPosition(stage) && stage.x is CENTER
        && stage.y is CENTER
    &&& builders[n + 1] is CullUnreachable
    &&& builders[n + 2] matches MetaStage::VoronoiSpawning(stage) && stage.noise@ == noise
    &&& builders[n + 3] is DistantExit
}

impl BuilderChains {
    /// Whether `chain` is the chain that `self` names, the spawns by
    /// regions labelled by `noise`.
    pub open spec fn assembled(&self, chain: &BuilderChain, noise: Seq<i32>) -> bool {
        let builders = chain.builders@;
        match self {
            BuilderChains::SimpleMap => chain.starter matches Some(InitialStage::SimpleMap(_))
                && room_stages(builders),
            BuilderChains::BspDungeon => chain.starter matches Some(InitialStage::BspDungeon(_))
                && room_stages(builders),
            BuilderChains::BspInterior => chain.starter matches Some(InitialStage::BspInterior(_))
                && room_stages(builders),
            BuilderChains::CellularAutomata => chain.starter matches Some(
                InitialStage::CellularAutomata(_),
            ) && builders.len() == 4 && area_stages(builders, noise),
            BuilderChains::DiffusionLimitedAggregation => chain.starter matches Some(
                InitialStage::DiffusionLimitedAggregation(_),
            ) && builders.len() == 4 && area_stages(builders, noise),
            BuilderChains::DrunkardsWalk => chain.starter matches Some(
                InitialStage::DrunkardsWalk(_),
            ) && builders.len() == 4 && area_stages(builders, noise),
            BuilderChains::Maze => chain.starter matches Some(InitialStage::Maze(_))
                && builders.len() == 4 && area_stages(builders, noise),
            BuilderChains::Voronoi => chain.starter matches Some(InitialStage::Voronoi(stage))
                && stage.n_seeds == crate::voronoi::DEFAULT_SEEDS && builders.len() == 4
                && area_stages(builders, noise),
            BuilderChains::Prefab => {
                &&& chain.starter matches Some(InitialStage::Voronoi(stage)) && stage.n_seeds
                    == 64
                &&& builders.len() == 7
                &&& builders[0] is WaveformCollapse
                &&& builders[1] matches MetaStage::Prefab(stage) && stage.mode is RoomVaults
                &&& builders[2] matches MetaStage::AreaStartingPosition(stage) && stage.x is CENTER
                    && stage.y is CENTER
                &&& builders[3] is CullUnreachable
                &&& builders[4] matches MetaStage::VoronoiSpawning(stage) && stage.noise@ == noise
                &&& builders[5] matches MetaStage::Prefab(stage) && stage.mode is Sectional
                &&& builders[6] is DistantExit
            },
        }
    }

    /// Assembles the chain for a level at depth `new_depth`. The chains of
    /// rooms place spawns, start and stairs by the rooms; the others take
    /// the start nearest to the middle of the map, cull what can not be
    /// reached from it, spawn by the regions that `noise` labels, and put
    /// the exit farthest from the start.
    pub fn match_builder(&self, new_depth: i32, noise: Vec<i32>) -> (chain: BuilderChain)
        ensures
            self.assembled(&chain, noise@),
            chain.build_data.wf(),
            chain.build_data.map.width == crate::tile_map::MAPWIDTH,
            chain.build_data.map.height == crate::tile_map::MAPHEIGHT,
            chain.build_data.map.depth == new_depth,
            forall|i: int|
                0 <= i < chain.build_data.map.tiles@.len() ==> chain.build_data.map.tiles@[i]
                    == TileType::Wall,
            chain.build_data.spawn_list@.len() == 0,
            chain.build_data.start is None,
            chain.build_data.rooms is None,
            chain.build_data.history@.len() == 0,
    {
        let ghost labels = noise@;
        let fresh = BuilderChain::new(new_depth);
        let chain = match self {
            BuilderChains::SimpleMap => BuilderChains::room_based(
                fresh.start_with(InitialStage::SimpleMap(SimpleMapBuilder::new())),
            ),
            BuilderChains::BspDungeon => BuilderChains::room_based(
                fresh.start_with(InitialStage::BspDungeon(BspDungeonBuilder::new(new_depth))),
            ),
            BuilderChains::BspInterior => BuilderChains::room_based(
                fresh.start_with(InitialStage::BspInterior(BspInteriorBuilder::new(new_depth))),
            ),
            BuilderChains::CellularAutomata => BuilderChains::area_based(
                fresh.start_with(InitialStage::CellularAutomata(CellularAutomataBuilder::new())),
                noise,
            ),
            BuilderChains::DrunkardsWalk => BuilderChains::area_based(
                fresh.start_with(InitialStage::DrunkardsWalk(DrunkardsWalkBuilder::random())),
                noise,
            ),
            BuilderChains::DiffusionLimitedAggregation => BuilderChains::area_based(
                fresh.start_with(InitialStage::DiffusionLimitedAggregation(DLABuilder::new())),
                noise,
            ),
            BuilderChains::Maze => BuilderChains::area_based(
                fresh.start_with(InitialStage::Maze(MazeBuilder::new())),
                noise,
            ),
            BuilderChains::Voronoi => BuilderChains::area_based(
                fresh.start_with(InitialStage::Voronoi(VoronoiBuilder::new())),
                noise,
            ),
            BuilderChains::Prefab => {
                let started = fresh.start_with(
                    InitialStage::Voronoi(VoronoiBuilder::pythagoras(64)),
                ).with(MetaStage::WaveformCollapse(WaveformCollapseBuilder::new())).with(
                    MetaStage::Prefab(PrefabBuilder::room_vaults()),
                ).with(
                    MetaStage::AreaStartingPosition(
                        AreaStartingPosition::new(XStart::CENTER, YStart::CENTER),
                    ),
                ).with(MetaStage::CullUnreachable(CullUnreachable::new())).with(
                    MetaStage::VoronoiSpawning(VoronoiSpawning::with_noise(noise)),
                );
                assert(started.builders@.len() == 5);
                let full = started.with(
                    MetaStage::Prefab(PrefabBuilder::sectional(underground_fort())),
                ).with(MetaStage::DistantExit(DistantExit::new()));
                full
            },
        };
        chain
    }

    /// Adds to `chain` the three stages that every chain with rooms ends
    /// with.
    pub fn room_based(chain: BuilderChain) -> (full: BuilderChain)
        requires
            chain.builders@.len() == 0,
        ensures
            full.starter == chain.starter,
            room_stages(full.builders@),
            full.build_data == chain.build_data,
    {
        chain.with(MetaStage::RoomBasedSpawner(RoomBasedSpawner::new())).with(
            MetaStage::RoomBasedStartingPosition(RoomBasedStartingPosition::new()),
        ).with(MetaStage::RoomBasedStairs(RoomBasedStairs::new()))
    }

    /// Adds to `chain` the four stages that every chain without rooms
    /// ends with.
    pub fn area_based(chain: BuilderChain, noise: Vec<i32>) -> (full: BuilderChain)
        ensures
            full.starter == chain.starter,
            full.builders@.len() == chain.builders@.len() + 4,
            forall|i: int| 0 <= i < chain.builders@.len()
                ==> full.builders@[i] == chain.builders@[i],
            area_stages(full.builders@, noise@),
            full.build_data == chain.build_data,
    {
        chain.with(
            MetaStage::AreaStartingPosition(
                AreaStartingPosition::new(XStart::CENTER, YStart::CENTER),
            ),
        ).with(MetaStage::CullUnreachable(CullUnreachable::new())).with(
            MetaStage::VoronoiSpawning(VoronoiSpawning::with_noise(noise)),
        ).with(MetaStage::DistantExit(DistantExit::new()))
    }
}

/// The chain for a level at depth `new_depth`: caves grown by an
/// automaton.
pub fn random_builder(new_depth: i32, rng: &mut RandomNumberGenerator, noise: Vec<i32>) -> (chain:
    BuilderChain)
    ensures
        BuilderChains::CellularAutomata.assembled(&chain, noise@),
        chain.build_data.wf(),
        chain.build_data.map.depth == new_depth,
{
    BuilderChains::CellularAutomata.match_builder(new_depth, noise)
}

/// Whether `exit` is the one exit of the map, reached by the flood and no
/// nearer to its start than any floor tile.
pub open spec fn is_far_exit(tiles: Seq<TileType>, distances: Seq<u32>, exit: int) -> bool {
    &&& 0 <= exit < tiles.len()
    &&& tiles[exit] == TileType::DownStairs
    &&& forall|i: int| 0 <= i < tiles.len() && i != exit
        ==> #[trigger] tiles[i] != TileType::DownStairs
    &&& distances[exit] != UNREACHED
    &&& forall|i: int|
        0 <= i < tiles.len() && #[trigger] tiles[i] == TileType::Floor ==> distances[i]
            <= distances[exit]
}

/// Whether the flood reaches every floor tile.
pub open spec fn all_floor_reached(tiles: Seq<TileType>, distances: Seq<u32>) -> bool {
    forall|i: int|
        0 <= i < tiles.len() && #[trigger] tiles[i] == TileType::Floor ==> distances[i] != UNREACHED
}

/// Whether every spawn is for a tile of its own that is no wall.
pub open spec fn spawns_off_walls(tiles: Seq<TileType>, spawns: Seq<(usize, String)>) -> bool {
    &&& forall|i: int|
        0 <= i < spawns.len() ==> (#[trigger] spawns[i]).0 < tiles.len()
            && tiles[spawns[i].0 as int]
            != TileType::Wall
    &&& forall|i: int, j: int| 0 <= i < j < spawns.len() ==> spawns[i].0 != spawns[j].0
}

/// Whether a level with these tiles, start, spawns and distances from the
/// start is fit to be played: its border is closed; it has one exit; its
/// start lies on a tile that is no wall; every floor tile can be reached
/// from the start, the exit too, and no floor tile is farther from the
/// start than the exit; every spawn is for a tile of its own that is no
/// wall.
pub open spec fn playable(
    tiles: Seq<TileType>,
    width: int,
    height: int,
    start: int,
    spawns: Seq<(usize, String)>,
    distances: Seq<u32>,
) -> bool {
    &&& closed_border(tiles, width, height)
    &&& exists|exit: int| #[trigger] is_far_exit(tiles, distances, exit)
    &&& 0 <= start < tiles.len()
    &&& tiles[start] != TileType::Wall
    &&& all_floor_reached(tiles, distances)
    &&& spawns_off_walls(tiles, spawns)
}

/// Whether a level is fit to be played, the distances being the flood
/// distances from its start.
pub open spec fn level_valid(data: &BuildData) -> bool {
    &&& data.wf()
    &&& data.start_on_map()
    &&& playable(
        data.map.tiles@,
        data.map.width as int,
        data.map.height as int,
        data.start_index(),
        data.spawn_list@,
        tile_distances(
            data.map.tiles@,
            data.map.width as int,
            data.map.height as int,
            seq![data.start_index() as usize],
            DEFAULT_FLOOD_DEPTH,
        ),
    )
}

/// Whether every tile is a wall or floor.
pub open spec fn plain(tiles: Seq<TileType>) -> bool {
    forall|i: int| 0 <= i < tiles.len() ==> #[trigger] tiles[i] != TileType::DownStairs
}

/// Whether the start lies on a floor tile of a map with a closed border
/// and without an exit, and whether, where `culled` says so, every floor
/// tile can be reached from the start.
pub open spec fn ready_for_exit(data: &BuildData, culled: bool) -> bool {
    let tiles = data.map.tiles@;
    &&& data.wf()
    &&& data.map.border_closed()
    &&& plain(tiles)
    &&& data.start_on_map()
    &&& 0 <= data.start_index() < tiles.len()
    &&& tiles[data.start_index()] == TileType::Floor
    &&& culled ==> all_floor_reached(
        tiles,
        tile_distances(
            tiles,
            data.map.width as int,
            data.map.height as int,
            seq![data.start_index() as usize],
            DEFAULT_FLOOD_DEPTH,
        ),
    )
}

/// Whether a level has a closed border and every spawn on a tile of its
/// own that is no wall.
pub open spec fn level_kept(data: &BuildData) -> bool {
    data.map.border_closed() && spawns_off_walls(data.map.tiles@, data.spawn_list@)
}

/// The three stages that follow the rooms, run on a level with a closed
/// border whose last room has its middle on floor and that has no spawns
/// yet, leave the border closed and every spawn on a tile of its own that
/// is no wall.
pub proof fn lemma_room_stages_keep_level(
    builders: Seq<MetaStage>,
    first: BuildData,
    end: BuildData,
)
    requires
        room_stages(builders),
        first.map.border_closed(),
        first.spawn_list@.len() == 0,
        crate::room_based_gen::last_room_open(&first),
        ran_through(builders, 3, first, end),
    ensures
        level_kept(&end),
{
    let s2 = choose|mid: BuildData|
        ran_through(builders, 2, first, mid) && #[trigger] builders[3 - 1].meta_outcome(
            &mid,
            &end,
            Ok(()),
        );
    let s1 = choose|mid: BuildData|
        ran_through(builders, 1, first, mid) && #[trigger] builders[2 - 1].meta_outcome(
            &mid,
            &s2,
            Ok(()),
        );
    let s0 = choose|mid: BuildData|
        ran_through(builders, 0, first, mid) && #[trigger] builders[1 - 1].meta_outcome(
            &mid,
            &s1,
            Ok(()),
        );
    assert(s0 == first);
    assert(builders[0].meta_outcome(&first, &s1, Ok(())));
    assert(builders[1].meta_outcome(&s1, &s2, Ok(())));
    assert(builders[2].meta_outcome(&s2, &end, Ok(())));
    assert(crate::spawner::spawns_valid(first.map.tiles@, first.spawn_list@));
    assert(s1.map == first.map && s1.rooms == first.rooms);
    assert(s2.map == first.map && s2.rooms == first.rooms && s2.spawn_list == s1.spawn_list);
    assert(crate::room_based_gen::last_room_open(&s2));
}

/// The four stages that follow the caves, run on a level with a closed
/// border that has no spawns yet, leave the border closed and every
/// spawn on a tile of its own that is no wall.
pub proof fn lemma_area_stages_keep_level(
    builders: Seq<MetaStage>,
    noise: Seq<i32>,
    first: BuildData,
    end: BuildData,
)
    requires
        builders.len() == 4,
        area_stages(builders, noise),
        first.map.border_closed(),
        first.spawn_list@.len() == 0,
        ran_through(builders, 4, first, end),
    ensures
        level_kept(&end),
{
    let s3 = choose|mid: BuildData|
        ran_through(builders, 3, first, mid) && #[trigger] builders[4 - 1].meta_outcome(
            &mid,
            &end,
            Ok(()),
        );
    let s2 = choose|mid: BuildData|
        ran_through(builders, 2, first, mid) && #[trigger] builders[3 - 1].meta_outcome(
            &mid,
            &s3,
            Ok(()),
        );
    let s1 = choose|mid: BuildData|
        ran_through(builders, 1, first, mid) && #[trigger] builders[2 - 1].meta_outcome(
            &mid,
            &s2,
            Ok(()),
        );
    let s0 = choose|mid: BuildData|
        ran_through(builders, 0, first, mid) && #[trigger] builders[1 - 1].meta_outcome(
            &mid,
            &s1,
            Ok(()),
        );
    assert(s0 == first);
    assert(builders[0].meta_outcome(&first, &s1, Ok(())));
    assert(builders[1].meta_outcome(&s1, &s2, Ok(())));
    assert(builders[2].meta_outcome(&s2, &s3, Ok(())));
    assert(builders[3].meta_outcome(&s3, &end, Ok(())));
    assert(s1.map == first.map && s1.spawn_list == first.spawn_list);
    assert(s2.map.border_closed() && s2.spawn_list == s1.spawn_list);
    assert(crate::spawner::spawns_valid(s2.map.tiles@, s2.spawn_list@));
    assert(s3.map == s2.map);
    assert(crate::spawner::spawns_valid(s3.map.tiles@, s3.spawn_list@));
}

/// A run of any chain that the game knows, but the one that works with
/// prefabs, on a level with a closed border and without spawns, leaves
/// the border closed and every spawn on a tile of its own that is no
/// wall.
pub proof fn lemma_run_keeps_level(
    kind: BuilderChains,
    chain: BuilderChain,
    noise: Seq<i32>,
    end: BuildData,
)
    requires
        !(kind is Prefab),
        kind.assembled(&chain, noise),
        chain.build_data.map.border_closed(),
        chain.build_data.spawn_list@.len() == 0,
        chain_outcome(chain.starter->0, chain.builders@, chain.build_data, end, Ok(())),
    ensures
        level_kept(&end),
{
    let starter = chain.starter->0;
    let builders = chain.builders@;
    let start = chain.build_data;
    let first = choose|first: BuildData|
        starter.initial_outcome(&start, &first, Ok(())) && #[trigger] ran_through(
            builders,
            builders.len() as int,
            first,
            end,
        );
    assert(starter.initial_outcome(&start, &first, Ok(())));
    assert(first.map.border_closed());
    assert(first.spawn_list == start.spawn_list);
    match kind {
        BuilderChains::SimpleMap | BuilderChains::BspDungeon | BuilderChains::BspInterior => {
            lemma_room_stages_keep_level(builders, first, end);
        },
        _ => {
            lemma_area_stages_keep_level(builders, noise, first, end);
        },
    }
}

/// Grows caves on a fresh map and puts the start on the floor nearest to
/// the middle; refuses where no floor grew.
fn grow_caves(new_depth: i32, rng: &mut RandomNumberGenerator) -> (result: Result<
    BuildData,
    BuildError,
>)
    ensures
        result is Ok,
        match result {
            Ok(data) => ready_for_exit(&data, false) && data.map.width == crate::tile_map::MAPWIDTH
                && data.map.height == crate::tile_map::MAPHEIGHT && data.map.depth == new_depth
                && data.rooms is None && data.spawn_list@.len() == 0,
            Err(error) => error == BuildError::NoFloor,
        },
{
    let mut data = BuildData::new(new_depth, true);
    proof {
        assert(data.map.border_closed());
    }
    let mut caves = CellularAutomataBuilder::new();
    let ghost fresh = data.map.tiles@;
    caves.build(rng, &mut data);
    proof {
        let w = data.map.width as int;
        let h = data.map.height as int;
        let seeded = choose|seeded: Seq<TileType>|
            crate::cellular_automata::is_seeded(fresh, seeded, w, h) && data.map.tiles@
                == #[trigger] crate::cellular_automata::automaton_steps(
                seeded,
                w,
                h,
                crate::cellular_automata::ITERATIONS as nat,
            );
        crate::tile_map::lemma_cell_index(w, h, 0, 1);
        crate::tile_map::lemma_cell_index(w, h, 1, 1);
        let edge = crate::tile_map::cell_index(w, 0, 1);
        assert(fresh[edge] == TileType::Wall);
        assert(seeded[edge] == fresh[edge]);
        crate::cellular_automata::lemma_automaton_leaves_floor(
            seeded,
            w,
            h,
            crate::cellular_automata::ITERATIONS as nat,
        );
        crate::area_based_gen::lemma_count_positive(
            data.map.tiles@,
            crate::tile_map::cell_index(w, 1, 1),
            data.map.tiles@.len() as int,
        );
    }
    if data.map.count_floor_tiles() == 0 {
        return Err(BuildError::NoFloor);
    }
    proof {
        crate::area_based_gen::lemma_count_zero(data.map.tiles@, data.map.tiles@.len() as int);
        assert(plain(data.map.tiles@));
    }
    let mut area = AreaStartingPosition::new(XStart::CENTER, YStart::CENTER);
    area.build(rng, &mut data);
    Ok(data)
}

/// Culls what the start does not reach.
fn cull_caves(rng: &mut RandomNumberGenerator, data: &mut BuildData)
    requires
        ready_for_exit(old(data), false),
    ensures
        ready_for_exit(final(data), true),
        final(data).map.same_shape(&old(data).map),
        final(data).start == old(data).start,
        final(data).rooms == old(data).rooms,
        final(data).spawn_list == old(data).spawn_list,
{
    let ghost w = data.map.width as int;
    let ghost h = data.map.height as int;
    let ghost grown = data.map.tiles@;
    let ghost start = data.start_index();
    let ghost starts = seq![start as usize];
    let mut cull = CullUnreachable::new();
    cull.build(rng, data);
    proof {
        let culled = data.map.tiles@;
        assert(w * h <= 0x1000_0000) by (nonlinear_arith)
            requires
                1 <= w <= 16384,
                1 <= h <= 16384,
        ;
        lemma_start_is_reached(w, h, wall_mask(grown), starts, DEFAULT_FLOOD_DEPTH, 0);
        assert(starts[0] as int == start);
        assert(tile_distances(grown, w, h, starts, DEFAULT_FLOOD_DEPTH)[start] == 0);
        assert(culled == crate::common::culled(grown, w, h, starts, DEFAULT_FLOOD_DEPTH));
        assert(culled[start] == TileType::Floor);
        assert forall|i: int| 0 <= i < culled.len() implies #[trigger] culled[i]
            != TileType::DownStairs by {
            assert(grown[i] != TileType::DownStairs);
        }
    }
}

/// The first of the farthest floor tiles that the flood reaches, turned
/// into the exit, is the one exit of a map that had none.
pub proof fn lemma_exit_is_far(
    tiles: Seq<TileType>,
    start: int,
    distances: Seq<u32>,
    exit: int,
)
    requires
        plain(tiles),
        0 <= start < tiles.len(),
        tiles[start] == TileType::Floor,
        distances[start] != UNREACHED,
        all_floor_reached(tiles, distances),
        crate::common::is_distant_exit(tiles, distances, exit),
    ensures
        0 <= exit < tiles.len(),
        tiles[exit] == TileType::Floor,
        is_far_exit(tiles.update(exit, TileType::DownStairs), distances, exit),
{
    let last = tiles.update(exit, TileType::DownStairs);
    assert(exit_candidate(tiles, distances, start));
    assert(exit_candidate(tiles, distances, exit));
    assert forall|i: int| 0 <= i < last.len() && i != exit implies #[trigger] last[i]
        != TileType::DownStairs by {
        assert(tiles[i] != TileType::DownStairs);
    }
    assert forall|i: int|
        0 <= i < last.len() && #[trigger] last[i] == TileType::Floor implies distances[i]
        <= distances[exit] by {
        assert(exit_candidate(tiles, distances, i));
    }
}

/// Turning a floor tile into the exit leaves the border closed, the floor
/// reached and the spawns off the walls.
pub proof fn lemma_exit_keeps_rest(
    tiles: Seq<TileType>,
    width: int,
    height: int,
    spawns: Seq<(usize, String)>,
    distances: Seq<u32>,
    exit: int,
)
    requires
        closed_border(tiles, width, height),
        all_floor_reached(tiles, distances),
        crate::spawner::spawns_valid(tiles, spawns),
        0 <= exit < tiles.len(),
        tiles[exit] == TileType::Floor,
    ensures
        closed_border(tiles.update(exit, TileType::DownStairs), width, height),
        all_floor_reached(tiles.update(exit, TileType::DownStairs), distances),
        spawns_off_walls(tiles.update(exit, TileType::DownStairs), spawns),
{
    let last = tiles.update(exit, TileType::DownStairs);
    assert forall|i: int|
        0 <= i < last.len() && on_border(
            width,
            height,
            col_of(width, i),
            row_of(width, i),
        ) implies #[trigger] last[i] == TileType::Wall by {
        assert(tiles[i] == TileType::Wall);
    }
    assert forall|i: int|
        0 <= i < last.len() && #[trigger] last[i] == TileType::Floor implies distances[i]
        != UNREACHED by {
        assert(tiles[i] == TileType::Floor);
    }
    assert forall|i: int| 0 <= i < spawns.len() implies (#[trigger] spawns[i]).0 < last.len()
        && last[spawns[i].0 as int] != TileType::Wall by {
        assert(tiles[spawns[i].0 as int] == TileType::Floor);
    }
}

/// The flood over a map is the same before and after a floor tile became
/// the exit.
pub proof fn lemma_exit_keeps_distances(
    tiles: Seq<TileType>,
    width: int,
    height: int,
    starts: Seq<usize>,
    exit: int,
)
    requires
        0 <= exit < tiles.len(),
        tiles[exit] != TileType::Wall,
    ensures
        tile_distances(
            tiles.update(exit, TileType::DownStairs),
            width,
            height,
            starts,
            DEFAULT_FLOOD_DEPTH,
        ) == tile_distances(tiles, width, height, starts, DEFAULT_FLOOD_DEPTH),
{
    assert(wall_mask(tiles.update(exit, TileType::DownStairs)) =~= wall_mask(tiles));
}

/// Builds a level of caves at depth `new_depth` with the stages of the
/// chain of caves, one after the other: the automaton, the start nearest
/// to the middle of the map, the cull, the spawns by the regions that
/// `noise` labels, and the exit. The automaton always leaves floor next
/// to the border, so the level is always built.
pub fn build_cave_level(new_depth: i32, rng: &mut RandomNumberGenerator,
    noise: Vec<i32>) -> (result:
    Result<BuildData, BuildError>)
    ensures
        result is Ok,
        match result {
            Ok(data) => level_valid(&data) && data.map.width == crate::tile_map::MAPWIDTH
                && data.map.height == crate::tile_map::MAPHEIGHT && data.map.depth == new_depth
                && data.rooms is None,
            Err(error) => error == BuildError::NoFloor,
        },
{
    match grow_caves(new_depth, rng) {
        Err(error) => Err(error),
        Ok(grown) => {
            let mut data = grown;
            cull_caves(rng, &mut data);
            let mut spawning = VoronoiSpawning::with_noise(noise);
            spawning.build(rng, &mut data);
            let ghost spawned = data;
            let mut far = DistantExit::new();
            let found = far.build(rng, &mut data);
            proof {
                let exit = found->0;
                let tiles = spawned.map.tiles@;
                let w = spawned.map.width as int;
                let h = spawned.map.height as int;
                let start = spawned.start_index();
                let starts = seq![start as usize];
                let distances = tile_distances(tiles, w, h, starts, DEFAULT_FLOOD_DEPTH);
                assert(w * h <= 0x1000_0000) by (nonlinear_arith)
                    requires
                        1 <= w <= 16384,
                        1 <= h <= 16384,
                ;
                lemma_start_is_reached(w, h, wall_mask(tiles), starts, DEFAULT_FLOOD_DEPTH, 0);
                assert(exit_candidate(tiles, distances, start));
                assert(found is Some);
                lemma_exit_is_far(tiles, start, distances, exit as int);
                lemma_exit_keeps_rest(tiles, w, h, spawned.spawn_list@, distances, exit as int);
                lemma_exit_keeps_distances(tiles, w, h, starts, exit as int);
                assert(is_far_exit(data.map.tiles@, distances, exit as int));
            }
            Ok(data)
        },
    }
}

} // verus!
