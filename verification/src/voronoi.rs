use crate::build_data::{BuildData, BuildError};
use crate::chain::InitialMapBuilder;
use crate::common::{spec_distance, DistanceAlgorithm};
use crate::position::Position;
use crate::tile_map::{
    cell_index, col_of, dug, is_interior, lemma_cell_index, lemma_cell_unique,
    lemma_dug_keeps_border, lemma_overlaid_dug, overlaid, row_of, TileType, MAX_DIMENSION,
};
use rltk::RandomNumberGenerator;
use vstd::prelude::*;

verus! {

/// How many seeds a stage scatters unless told otherwise.
pub const DEFAULT_SEEDS: usize = 64;

/// How many places the dice may pick while the seeds are scattered.
pub const MAX_SEED_ATTEMPTS: u32 = 1_000_000;

/// Builder to construct a map by way of a Voronoi diagram: passages run
/// where the regions of the diagram meet.
pub struct VoronoiBuilder {
    pub n_seeds: usize,
    pub distance_algorithm: DistanceAlgorithm,
}

/// The seeds of a diagram and, for every cell, the seed it belongs to.
pub struct VoronoiDiagram {
    pub membership: Vec<i32>,
    pub seeds: Vec<(usize, Position)>,
    pub width: i32,
    pub height: i32,
    pub distance: DistanceAlgorithm,
}

/// How far the cell `(x, y)` is from seed `s`.
pub open spec fn seed_distance(
    algorithm: DistanceAlgorithm,
    seeds: Seq<(usize, Position)>,
    s: int,
    x: int,
    y: int,
) -> int {
    spec_distance(algorithm, x, y, seeds[s].1.x as int, seeds[s].1.y as int)
}

/// Whether seed `s` is the first of the seeds that are nearest to `(x,
/// y)`.
pub open spec fn is_nearest(
    algorithm: DistanceAlgorithm,
    seeds: Seq<(usize, Position)>,
    x: int,
    y: int,
    s: int,
) -> bool {
    &&& 0 <= s < seeds.len()
    &&& forall|t: int|
        0 <= t < seeds.len()
            ==> seed_distance(algorithm, seeds, s, x, y) <= #[trigger] seed_distance(
            algorithm,
            seeds,
            t,
            x,
            y,
        )
    &&& forall|t: int|
        0 <= t < s ==> seed_distance(algorithm, seeds, s, x, y) < #[trigger] seed_distance(
            algorithm,
            seeds,
            t,
            x,
            y,
        )
}

/// One where the cell `(x, y)` lies off the grid or belongs to another
/// seed than `seed`, zero otherwise.
pub open spec fn differs(membership: Seq<i32>, width: int, x: int, y: int, seed: int) -> int {
    if membership[cell_index(width, x, y)] != seed {
        1
    } else {
        0
    }
}

/// How many of the four cells next to `(x, y)` in its row and column
/// belong to another seed than `seed`.
pub open spec fn foreign_neighbours(
    membership: Seq<i32>,
    width: int,
    x: int,
    y: int,
    seed: int,
) -> int {
    differs(membership, width, x - 1, y, seed) + differs(membership, width, x + 1, y, seed)
        + differs(membership, width, x, y - 1, seed) + differs(membership, width, x, y + 1, seed)
}

/// Whether the stage makes `(x, y)` floor: the cell lies off the border
/// and fewer than two of its neighbours belong to another seed than it
/// does.
pub open spec fn is_passage(membership: Seq<i32>, width: int, height: int, x: int, y: int) -> bool {
    is_interior(width, height, x, y) && foreign_neighbours(
        membership,
        width,
        x,
        y,
        membership[cell_index(width, x, y)] as int,
    ) < 2
}

/// The most seeds that a diagram holds.
pub const MAX_SEEDS: usize = 0x7fff_fff0;

/// Whether one of `seeds` lies on the cell with index `idx`.
pub open spec fn seed_on(seeds: Seq<(usize, Position)>, idx: int) -> bool {
    exists|s: int| 0 <= s < seeds.len() && (#[trigger] seeds[s]).0 == idx
}

/// The seeds after the first `k` of the cells `tries` were tried in turn: a
/// cell without a seed gets one, a cell with a seed changes nothing.
pub open spec fn seeds_placed(
    seeds: Seq<(usize, Position)>,
    width: int,
    tries: Seq<(i32, i32)>,
    k: int,
) -> Seq<(usize, Position)>
    decreases k,
{
    if k <= 0 {
        seeds
    } else {
        let before = seeds_placed(seeds, width, tries, k - 1);
        let at = tries[k - 1];
        let idx = cell_index(width, at.0 as int, at.1 as int);
        if seed_on(before, idx) {
            before
        } else {
            before.push((idx as usize, (Position { x: at.0, y: at.1 })))
        }
    }
}

/// Whether `after` is what placing seeds makes of `before`: for some cells
/// off the first row and column, tried in turn, each try made while seeds
/// were wanted, and the last made when `wanted` seeds were there or no
/// further try was allowed.
pub open spec fn seeds_populated(
    before: Seq<(usize, Position)>,
    after: Seq<(usize, Position)>,
    width: int,
    height: int,
    wanted: int,
    tries: Seq<(i32, i32)>,
) -> bool {
    &&& tries.len() <= MAX_SEED_ATTEMPTS
    &&& forall|k: int|
        0 <= k < tries.len() ==> 1 <= (#[trigger] tries[k]).0 < width && 1 <= tries[k].1 < height
    &&& forall|k: int|
        0 <= k < tries.len() ==> (#[trigger] seeds_placed(before, width, tries, k)).len() < wanted
            && seeds_placed(before, width, tries, k).len() < MAX_SEEDS
    &&& after == seeds_placed(before, width, tries, tries.len() as int)
    &&& after.len() >= wanted || after.len() >= MAX_SEEDS || tries.len() == MAX_SEED_ATTEMPTS
}

/// What the first tries place does not depend on the tries after them.
pub proof fn lemma_placed_prefix(
    seeds: Seq<(usize, Position)>,
    width: int,
    short: Seq<(i32, i32)>,
    long: Seq<(i32, i32)>,
    k: int,
)
    requires
        0 <= k <= short.len() <= long.len(),
        forall|i: int| 0 <= i < short.len() ==> short[i] == long[i],
    ensures
        seeds_placed(seeds, width, long, k) == seeds_placed(seeds, width, short, k),
    decreases k,
{
    if k > 0 {
        lemma_placed_prefix(seeds, width, short, long, k - 1);
    }
}

/// No try takes a seed away, and the first try on a grid without seeds
/// places one.
pub proof fn lemma_placed_grows(
    seeds: Seq<(usize, Position)>,
    width: int,
    tries: Seq<(i32, i32)>,
    k: int,
)
    requires
        0 <= k,
    ensures
        seeds.len() <= seeds_placed(seeds, width, tries, k).len(),
        k >= 1 && seeds.len() == 0 ==> seeds_placed(seeds, width, tries, k).len() >= 1,
    decreases k,
{
    if k > 0 {
        lemma_placed_grows(seeds, width, tries, k - 1);
    }
}

impl VoronoiDiagram {
    /// The diagram's invariant: seeds on the grid, no two on one cell, and
    /// every cell with the first of its nearest seeds, or with zero where
    /// there is no seed.
    pub open spec fn wf(&self) -> bool {
        &&& 1 <= self.width <= MAX_DIMENSION
        &&& 1 <= self.height <= MAX_DIMENSION
        &&& self.membership@.len() == self.width * self.height
        &&& self.seeds@.len() < i32::MAX
        &&& forall|s: int|
            0 <= s < self.seeds@.len() ==> {
                let seed = #[trigger] self.seeds@[s];
                &&& 0 <= seed.1.x < self.width
                &&& 0 <= seed.1.y < self.height
                &&& seed.0 == cell_index(self.width as int, seed.1.x as int, seed.1.y as int)
            }
        &&& forall|s: int, t: int|
            0 <= s < t < self.seeds@.len() ==> self.seeds@[s].0 != self.seeds@[t].0
        &&& forall|i: int|
            0 <= i < self.membership@.len() ==> if self.seeds@.len() == 0 {
                #[trigger] self.membership@[i] == 0
            } else {
                is_nearest(
                    self.distance,
                    self.seeds@,
                    col_of(self.width as int, i),
                    row_of(self.width as int, i),
                    self.membership@[i] as int,
                )
            }
    }

    /// Constructs a new diagram of up to `n_seeds` seeds that the dice
    /// place, with the membership of every cell.
    pub fn new(
        width: i32,
        height: i32,
        distance_algorithm: DistanceAlgorithm,
        n_seeds: usize,
        rng: &mut RandomNumberGenerator,
    ) -> (vd: VoronoiDiagram)
        requires
            2 <= width <= MAX_DIMENSION,
            2 <= height <= MAX_DIMENSION,
        ensures
            vd.wf(),
            vd.width == width,
            vd.height == height,
            vd.distance == distance_algorithm,
            vd.seeds@.len() <= n_seeds,
            n_seeds >= 1 ==> vd.seeds@.len() >= 1,
            exists|tries: Seq<(i32, i32)>| #[trigger]
                seeds_populated(
                    Seq::empty(),
                    vd.seeds@,
                    width as int,
                    height as int,
                    n_seeds as int,
                    tries,
                ),
    {
        assert(width * height <= MAX_DIMENSION * MAX_DIMENSION) by (nonlinear_arith)
            requires
                1 <= width <= MAX_DIMENSION,
                1 <= height <= MAX_DIMENSION,
        ;
        let mut vd = VoronoiDiagram {
            membership: vec![0; (width as usize) * (height as usize)],
            seeds: Vec::new(),
            width,
            height,
            distance: distance_algorithm,
        };
        proof {
            assert(vd.seeds@ =~= Seq::empty());
        }
        vd.populate_seeds(n_seeds, rng);
        let ghost placed = vd.seeds@;
        proof {
            let tries = choose|tries: Seq<(i32, i32)>| #[trigger]
                seeds_populated(
                    Seq::empty(),
                    placed,
                    width as int,
                    height as int,
                    n_seeds as int,
                    tries,
                );
            lemma_placed_grows(Seq::empty(), width as int, tries, tries.len() as int);
        }
        vd.determine_membership();
        proof {
            assert(vd.seeds@ == placed);
        }
        vd
    }

    /// Whether the basic shape of the diagram is in order: its size, its
    /// seeds on the grid and apart.
    pub open spec fn seeded(&self) -> bool {
        &&& 1 <= self.width <= MAX_DIMENSION
        &&& 1 <= self.height <= MAX_DIMENSION
        &&& self.membership@.len() == self.width * self.height
        &&& self.seeds@.len() < i32::MAX
        &&& forall|s: int|
            0 <= s < self.seeds@.len() ==> {
                let seed = #[trigger] self.seeds@[s];
                &&& 0 <= seed.1.x < self.width
                &&& 0 <= seed.1.y < self.height
                &&& seed.0 == cell_index(self.width as int, seed.1.x as int, seed.1.y as int)
            }
        &&& forall|s: int, t: int|
            0 <= s < t < self.seeds@.len() ==> self.seeds@[s].0 != self.seeds@[t].0
    }

    /// Whether a seed lies on the cell with index `vidx`.
    pub fn has_seed(&self, vidx: usize) -> (found: bool)
        ensures
            found == (exists|s: int| 0 <= s < self.seeds@.len()
                && (#[trigger] self.seeds@[s]).0 == vidx),
    {
        let mut s: usize = 0;
        while s < self.seeds.len()
            invariant
                s <= self.seeds@.len(),
                forall|t: int| 0 <= t < s ==> (#[trigger] self.seeds@[t]).0 != vidx,
            decreases self.seeds@.len() - s,
        {
            if self.seeds[s].0 == vidx {
                return true;
            }
            s += 1;
        }
        false
    }

    /// Places seeds where the dice say, off the first row and column, no
    /// two on one cell, until there are `n_seeds` or the dice have been
    /// asked `MAX_SEED_ATTEMPTS` times.
    pub fn populate_seeds(&mut self, n_seeds: usize, rng: &mut RandomNumberGenerator)
        requires
            old(self).seeded(),
            old(self).width >= 2,
            old(self).height >= 2,
        ensures
            final(self).seeded(),
            final(self).width == old(self).width,
            final(self).height == old(self).height,
            final(self).distance == old(self).distance,
            final(self).membership == old(self).membership,
            exists|tries: Seq<(i32, i32)>| #[trigger]
                seeds_populated(
                    old(self).seeds@,
                    final(self).seeds@,
                    old(self).width as int,
                    old(self).height as int,
                    n_seeds as int,
                    tries,
                ),
            final(self).seeds@.len() <= n_seeds
                || final(self).seeds@.len() == old(self).seeds@.len(),
            old(self).seeds@.len() <= final(self).seeds@.len(),
            forall|s: int|
                0 <= s < old(self).seeds@.len() ==> final(self).seeds@[s] == old(self).seeds@[s],
    {
        let mut attempts: u32 = 0;
        let ghost mut tries: Seq<(i32, i32)> = Seq::empty();
        let ghost first = self.seeds@;
        let ghost w = self.width as int;
        while self.seeds.len() < n_seeds && attempts < MAX_SEED_ATTEMPTS && self.seeds.len()
            < MAX_SEEDS
            invariant
                first == old(self).seeds@,
                w == self.width,
                tries.len() == attempts,
                forall|k: int|
                    0 <= k < tries.len() ==> 1 <= (#[trigger] tries[k]).0 < self.width && 1
                        <= tries[k].1 < self.height,
                forall|k: int|
                    0 <= k < tries.len() ==> (#[trigger] seeds_placed(first, w, tries, k)).len()
                        < n_seeds && seeds_placed(first, w, tries, k).len() < MAX_SEEDS,
                self.seeds@ == seeds_placed(first, w, tries, tries.len() as int),
                self.seeded(),
                self.width == old(self).width,
                self.height == old(self).height,
                self.width >= 2,
                self.height >= 2,
                self.distance == old(self).distance,
                self.membership == old(self).membership,
                self.seeds@.len() <= n_seeds || self.seeds@.len() == old(self).seeds@.len(),
                old(self).seeds@.len() <= self.seeds@.len(),
                forall|s: int|
                    0 <= s < old(self).seeds@.len() ==> self.seeds@[s] == old(self).seeds@[s],
                attempts <= MAX_SEED_ATTEMPTS,
            decreases MAX_SEED_ATTEMPTS - attempts,
        {
            let vx = rng.roll_dice(1, self.width - 1);
            let vy = rng.roll_dice(1, self.height - 1);
            let vidx = self.xy_idx(vx, vy);
            let ghost tries_then = tries;
            let ghost seeds_then = self.seeds@;
            if !self.has_seed(vidx) {
                self.seeds.push((vidx, Position { x: vx, y: vy }));
            }
            attempts += 1;
            proof {
                tries = tries_then.push((vx, vy));
                lemma_placed_prefix(first, w, tries_then, tries, tries_then.len() as int);
                assert forall|k: int| 0 <= k < tries.len() implies (#[trigger] seeds_placed(
                    first,
                    w,
                    tries,
                    k,
                )).len() < n_seeds && seeds_placed(first, w, tries, k).len() < MAX_SEEDS by {
                    lemma_placed_prefix(first, w, tries_then, tries, k);
                }
                assert(seed_on(seeds_then, vidx as int) == (exists|s: int|
                    0 <= s < seeds_then.len() && (#[trigger] seeds_then[s]).0 == vidx));
                assert(self.seeds@ == seeds_placed(first, w, tries, tries.len() as int));
            }
        }
        proof {
            assert(seeds_populated(
                old(self).seeds@,
                self.seeds@,
                w,
                self.height as int,
                n_seeds as int,
                tries,
            ));
        }
    }

    /// The first of the seeds that are nearest to `(x, y)`.
    pub fn nearest_seed(&self, x: i32, y: i32) -> (s: usize)
        requires
            self.seeded(),
            self.seeds@.len() > 0,
            0 <= x < self.width,
            0 <= y < self.height,
        ensures
            is_nearest(self.distance, self.seeds@, x as int, y as int, s as int),
    {
        let here = Position { x, y };
        let mut best: usize = 0;
        let mut best_distance = self.distance.apply(here, self.seeds[0].1);
        let mut t: usize = 1;
        while t < self.seeds.len()
            invariant
                self.seeded(),
                here == (Position { x, y }),
                0 <= x < self.width,
                0 <= y < self.height,
                1 <= t <= self.seeds@.len(),
                best < t,
                best_distance == seed_distance(
                    self.distance,
                    self.seeds@,
                    best as int,
                    x as int,
                    y as int,
                ),
                forall|u: int|
                    0 <= u < t ==> best_distance <= #[trigger] seed_distance(
                        self.distance,
                        self.seeds@,
                        u,
                        x as int,
                        y as int,
                    ),
                forall|u: int|
                    0 <= u < best ==> best_distance < #[trigger] seed_distance(
                        self.distance,
                        self.seeds@,
                        u,
                        x as int,
                        y as int,
                    ),
            decreases self.seeds@.len() - t,
        {
            let d = self.distance.apply(here, self.seeds[t].1);
            if d < best_distance {
                best = t;
                best_distance = d;
            }
            t += 1;
        }
        best
    }

    /// Gives every cell the first of its nearest seeds.
    pub fn determine_membership(&mut self)
        requires
            old(self).seeded(),
        ensures
            final(self).wf(),
            final(self).width == old(self).width,
            final(self).height == old(self).height,
            final(self).distance == old(self).distance,
            final(self).seeds == old(self).seeds,
    {
        let mut members: Vec<i32> = Vec::new();
        let ghost w = self.width as int;
        let ghost h = self.height as int;
        let mut y: i32 = 0;
        while y < self.height
            invariant
                *self == *old(self),
                self.seeded(),
                w == self.width,
                h == self.height,
                0 <= y <= self.height,
                members@.len() == y * w,
                forall|i: int|
                    0 <= i < members@.len() ==> if self.seeds@.len() == 0 {
                        #[trigger] members@[i] == 0
                    } else {
                        is_nearest(
                            self.distance,
                            self.seeds@,
                            col_of(w, i),
                            row_of(w, i),
                            members@[i] as int,
                        )
                    },
            decreases self.height - y,
        {
            let mut x: i32 = 0;
            while x < self.width
                invariant
                    *self == *old(self),
                    self.seeded(),
                    w == self.width,
                    h == self.height,
                    0 <= y < self.height,
                    0 <= x <= self.width,
                    members@.len() == y * w + x,
                    forall|i: int|
                        0 <= i < members@.len() ==> if self.seeds@.len() == 0 {
                            #[trigger] members@[i] == 0
                        } else {
                            is_nearest(
                                self.distance,
                                self.seeds@,
                                col_of(w, i),
                                row_of(w, i),
                                members@[i] as int,
                            )
                        },
                decreases self.width - x,
            {
                proof {
                    lemma_cell_index(w, h, x as int, y as int);
                }
                if self.seeds.len() == 0 {
                    members.push(0);
                } else {
                    let s = self.nearest_seed(x, y);
                    members.push(s as i32);
                }
                x += 1;
            }
            proof {
                assert(y * w + w == (y + 1) * w) by (nonlinear_arith);
            }
            y += 1;
        }
        proof {
            assert(h * w == w * h) by (nonlinear_arith);
        }
        self.membership = members;
    }

    /// Counts the cells next to `(x, y)` in its row and column that belong
    /// to another seed than `seed`.
    pub fn neighbors(&self, x: i32, y: i32, seed: i32) -> (neighbors: i32)
        requires
            self.seeded(),
            1 <= x < self.width - 1,
            1 <= y < self.height - 1,
        ensures
            neighbors == foreign_neighbours(
                self.membership@,
                self.width as int,
                x as int,
                y as int,
                seed as int,
            ),
    {
        let mut neighbors: i32 = 0;
        if self.membership[self.xy_idx(x - 1, y)] != seed {
            neighbors += 1;
        }
        if self.membership[self.xy_idx(x + 1, y)] != seed {
            neighbors += 1;
        }
        if self.membership[self.xy_idx(x, y - 1)] != seed {
            neighbors += 1;
        }
        if self.membership[self.xy_idx(x, y + 1)] != seed {
            neighbors += 1;
        }
        neighbors
    }

    pub fn xy_idx(&self, x: i32, y: i32) -> (idx: usize)
        requires
            1 <= self.width <= MAX_DIMENSION,
            1 <= self.height <= MAX_DIMENSION,
            0 <= x < self.width,
            0 <= y < self.height,
        ensures
            idx == cell_index(self.width as int, x as int, y as int),
            idx < self.width * self.height,
    {
        proof {
            lemma_cell_index(self.width as int, self.height as int, x as int, y as int);
            assert(0 <= y * self.width <= MAX_DIMENSION * MAX_DIMENSION) by (nonlinear_arith)
                requires
                    0 <= y < MAX_DIMENSION,
                    1 <= self.width <= MAX_DIMENSION,
            ;
        }
        (y as usize * self.width as usize) + x as usize
    }
}

impl VoronoiBuilder {
    /// A stage of `DEFAULT_SEEDS` seeds that measures with squared
    /// straight-line distances.
    pub fn new() -> (stage: Box<VoronoiBuilder>)
        ensures
            stage.n_seeds == DEFAULT_SEEDS,
            stage.distance_algorithm == DistanceAlgorithm::Pythagoras,
    {
        Box::new(
            VoronoiBuilder { n_seeds: 64, distance_algorithm: DistanceAlgorithm::Pythagoras },
        )
    }

    /// A stage of `n_seeds` seeds that measures with squared straight-line
    /// distances.
    pub fn pythagoras(n_seeds: usize) -> (stage: Box<VoronoiBuilder>)
        ensures
            stage.n_seeds == n_seeds,
            stage.distance_algorithm == DistanceAlgorithm::Pythagoras,
    {
        Box::new(VoronoiBuilder { n_seeds, distance_algorithm: DistanceAlgorithm::Pythagoras })
    }

    /// A stage of `n_seeds` seeds that measures by rows plus columns.
    pub fn manhattan(n_seeds: usize) -> (stage: Box<VoronoiBuilder>)
        ensures
            stage.n_seeds == n_seeds,
            stage.distance_algorithm == DistanceAlgorithm::Manhattan,
    {
        Box::new(VoronoiBuilder { n_seeds, distance_algorithm: DistanceAlgorithm::Manhattan })
    }

    /// A stage of `n_seeds` seeds that measures by the larger of rows and
    /// columns.
    pub fn chebyshev(n_seeds: usize) -> (stage: Box<VoronoiBuilder>)
        ensures
            stage.n_seeds == n_seeds,
            stage.distance_algorithm == DistanceAlgorithm::Chebyshev,
    {
        Box::new(VoronoiBuilder { n_seeds, distance_algorithm: DistanceAlgorithm::Chebyshev })
    }

    /// Scatters seeds, finds for every cell the seed it belongs to, and
    /// makes floor of every cell off the border of which fewer than two
    /// neighbours belong to another seed. Gives the diagram it used.
    pub fn build(&mut self, rng: &mut RandomNumberGenerator,
        build_data: &mut BuildData) -> (diagram:
        VoronoiDiagram)
        requires
            old(build_data).wf(),
            old(build_data).map.width >= 2,
            old(build_data).map.height >= 2,
        ensures
            *final(self) == *old(self),
            diagram.wf(),
            diagram.width == old(build_data).map.width,
            diagram.height == old(build_data).map.height,
            diagram.distance == old(self).distance_algorithm,
            diagram.seeds@.len() <= old(self).n_seeds,
            old(self).n_seeds >= 1 ==> diagram.seeds@.len() >= 1,
            exists|tries: Seq<(i32, i32)>| #[trigger]
                seeds_populated(
                    Seq::empty(),
                    diagram.seeds@,
                    old(build_data).map.width as int,
                    old(build_data).map.height as int,
                    old(self).n_seeds as int,
                    tries,
                ),
            final(build_data).wf(),
            final(build_data).map.same_but_tiles(&old(build_data).map),
            overlaid(
                old(build_data).map.tiles@,
                final(build_data).map.tiles@,
                old(build_data).map.width as int,
                |x: int, y: int|
                    is_passage(
                        diagram.membership@,
                        old(build_data).map.width as int,
                        old(build_data).map.height as int,
                        x,
                        y,
                    ),
                TileType::Floor,
            ),
            dug(
                old(build_data).map.tiles@,
                final(build_data).map.tiles@,
                old(build_data).map.width as int,
                old(build_data).map.height as int,
            ),
            old(build_data).map.border_closed() ==> final(build_data).map.border_closed(),
            final(build_data).spawn_list == old(build_data).spawn_list,
            final(build_data).start == old(build_data).start,
            final(build_data).rooms == old(build_data).rooms,
            final(build_data).extends_history(old(build_data)),
            final(build_data).grew_by(old(build_data), old(build_data).map.height - 2),
            old(build_data).map.height >= 3 ==> final(build_data).shows_map(),
    {
        let ghost w = build_data.map.width as int;
        let ghost h = build_data.map.height as int;
        let ghost before = build_data.map.tiles@;
        let diagram = VoronoiDiagram::new(
            build_data.map.width,
            build_data.map.height,
            self.distance_algorithm,
            self.n_seeds,
            rng,
        );
        let mut y: i32 = 1;
        while y < build_data.map.height - 1
            invariant
                *self == *old(self),
                diagram.wf(),
                diagram.width == w,
                diagram.height == h,
                build_data.wf(),
                build_data.map.same_but_tiles(&old(build_data).map),
                w == build_data.map.width,
                h == build_data.map.height,
                before == old(build_data).map.tiles@,
                1 <= y,
                overlaid(
                    before,
                    build_data.map.tiles@,
                    w,
                    |cx: int, cy: int| is_passage(diagram.membership@, w, h, cx, cy) && cy < y,
                    TileType::Floor,
                ),
                build_data.spawn_list == old(build_data).spawn_list,
                build_data.start == old(build_data).start,
                build_data.rooms == old(build_data).rooms,
                build_data.extends_history(old(build_data)),
                build_data.grew_by(old(build_data), y - 1),
                y <= build_data.map.height - 1,
                y > 1 ==> build_data.shows_map(),
            decreases build_data.map.height - y,
        {
            let mut x: i32 = 1;
            while x < build_data.map.width - 1
                invariant
                    *self == *old(self),
                    diagram.wf(),
                    diagram.width == w,
                    diagram.height == h,
                    build_data.wf(),
                    build_data.map.same_but_tiles(&old(build_data).map),
                    w == build_data.map.width,
                    h == build_data.map.height,
                    before == old(build_data).map.tiles@,
                    1 <= y < build_data.map.height - 1,
                    1 <= x,
                    overlaid(
                        before,
                        build_data.map.tiles@,
                        w,
                        |cx: int, cy: int|
                            is_passage(diagram.membership@, w, h, cx, cy) && (cy < y || (cy == y
                                && cx < x)),
                        TileType::Floor,
                    ),
                    build_data.spawn_list == old(build_data).spawn_list,
                    build_data.start == old(build_data).start,
                    build_data.rooms == old(build_data).rooms,
                    build_data.extends_history(old(build_data)),
                    build_data.grew_by(old(build_data), y - 1),
                decreases build_data.map.width - x,
            {
                proof {
                    lemma_cell_unique(w, h, x as int, y as int);
                }
                let idx = build_data.map.xy_idx(x, y);
                let seed = diagram.membership[idx];
                let neighbors = diagram.neighbors(x, y, seed);
                if neighbors < 2 {
                    build_data.map.tiles[idx] = TileType::Floor;
                }
                x += 1;
            }
            build_data.take_snapshot();
            y += 1;
        }
        proof {
            lemma_overlaid_dug(
                before,
                build_data.map.tiles@,
                w,
                h,
                |cx: int, cy: int| is_passage(diagram.membership@, w, h, cx, cy),
            );
            if old(build_data).map.border_closed() {
                lemma_dug_keeps_border(before, build_data.map.tiles@, w, h);
            }
        }
        diagram
    }
}

impl InitialMapBuilder for VoronoiBuilder {
    open spec fn initial_outcome(
        &self,
        before: &BuildData,
        after: &BuildData,
        result: Result<(), BuildError>,
    ) -> bool {
        match result {
            Err(error) => error == BuildError::MapTooSmall && (before.map.width < 2
                || before.map.height < 2),
            Ok(_) => {
                &&& before.map.border_closed() ==> after.map.border_closed()
                &&& !(before.map.width < 2 || before.map.height < 2)
                &&& dug(
                    before.map.tiles@,
                    after.map.tiles@,
                    before.map.width as int,
                    before.map.height as int,
                )
                &&& after.spawn_list == before.spawn_list
                &&& after.start == before.start
                &&& after.rooms == before.rooms
            },
        }
    }

    fn build_map(&mut self, rng: &mut RandomNumberGenerator, build_data: &mut BuildData) -> (result:
        Result<(), BuildError>)
        ensures
            result is Err <==> old(build_data).map.width < 2 || old(build_data).map.height < 2,
    {
        if build_data.map.width < 2 || build_data.map.height < 2 {
            return Err(BuildError::MapTooSmall);
        }
        self.build(rng, build_data);
        Ok(())
    }
}

} // verus!
