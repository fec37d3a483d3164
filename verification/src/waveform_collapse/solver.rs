use crate::tile_map::{
    col_of, lemma_cell_index, lemma_cell_unique, lemma_index_cell, replaced, row_of, TileMap,
    TileType, MAX_DIMENSION,
};
use crate::waveform_collapse::common::{
    compatible, is_catalog, is_compatible_list, lemma_compatible_symmetric, lemma_rising_len,
    side_of, Direction, MapChunk,
};
use rltk::RandomNumberGenerator;
use vstd::prelude::*;

verus! {

/// Whether every pattern of the catalog has `size * size` tiles and every
/// list of neighbours names patterns of the catalog only, and no more of
/// them than a die can have faces.
pub open spec fn catalog_ok(catalog: Seq<MapChunk>, size: int) -> bool {
    &&& catalog.len() < i32::MAX
    &&& forall|k: int|
        0 <= k < catalog.len() ==> {
            &&& (#[trigger] catalog[k]).pattern@.len() == size * size
            &&& forall|side: int|
                0 <= side < 4 ==> (#[trigger] catalog[k].compatible_with[side])@.len() < i32::MAX
            &&& forall|side: int, j: int|
                0 <= side < 4 && 0 <= j < catalog[k].compatible_with[side]@.len()
                    ==> #[trigger] catalog[k].compatible_with[side]@[j] < catalog.len()
        }
}

/// A pattern without exits may lie on every side of every pattern of the
/// catalog.
pub proof fn lemma_exit_free_fits(
    catalog: Seq<MapChunk>,
    patterns: Seq<Seq<TileType>>,
    size: int,
    q: int,
)
    requires
        crate::waveform_collapse::common::is_catalog(catalog, patterns, size),
        0 <= q < patterns.len(),
        !crate::waveform_collapse::common::pattern_has_exits(patterns[q], size),
    ensures
        forall|a: int, side: int|
            0 <= a < catalog.len() && 0 <= side < 4 ==> (
            #[trigger] catalog[a].compatible_with[side])@.contains(q as usize),
{
    assert forall|a: int, side: int| 0 <= a < catalog.len() && 0 <= side < 4 implies (
    #[trigger] catalog[a].compatible_with[side])@.contains(q as usize) by {
        assert(crate::waveform_collapse::common::is_compatible_list(
            catalog[a].compatible_with[side]@,
            patterns,
            a,
            size,
            side_of(side),
        ));
        assert(crate::waveform_collapse::common::compatible(
            patterns[a],
            patterns[q],
            size,
            side_of(side),
        ));
    }
}

/// The catalog of fewer patterns than a die can have faces is one that a
/// solver can work with.
pub proof fn lemma_catalog_ok(catalog: Seq<MapChunk>, patterns: Seq<Seq<TileType>>, size: int)
    requires
        is_catalog(catalog, patterns, size),
        catalog.len() < i32::MAX,
    ensures
        catalog_ok(catalog, size),
{
    assert forall|k: int| 0 <= k < catalog.len() implies {
        &&& (#[trigger] catalog[k]).pattern@.len() == size * size
        &&& forall|side: int|
            0 <= side < 4 ==> (#[trigger] catalog[k].compatible_with[side])@.len() < i32::MAX
        &&& forall|side: int, j: int|
            0 <= side < 4 && 0 <= j < catalog[k].compatible_with[side]@.len()
                ==> #[trigger] catalog[k].compatible_with[side]@[j] < catalog.len()
    } by {
        assert(catalog[k].describes(patterns[k], size));
        assert forall|side: int| 0 <= side < 4 implies (
        #[trigger] catalog[k].compatible_with[side])@.len() < i32::MAX && (forall|j: int|
            0 <= j < catalog[k].compatible_with[side]@.len()
                ==> #[trigger] catalog[k].compatible_with[side]@[j] < catalog.len()) by {
            let list = catalog[k].compatible_with[side]@;
            assert(is_compatible_list(list, patterns, k, size, side_of(side)));
            lemma_rising_len(list, catalog.len() as int);
        }
    }
}

/// The solver's state: which regions of the map hold which pattern of the
/// catalog, and which are still to be decided.
pub struct Solver<'a> {
    pub constraints: &'a Vec<MapChunk>,
    pub chunk_size: i32,
    pub chunks: Vec<Option<usize>>,
    pub chunks_x: usize,
    pub chunks_y: usize,
    /// The undecided regions, each with the number of its decided
    /// neighbours as of the last count.
    pub remaining: Vec<(usize, i32)>,
    pub possible: bool,
}

/// A cell lies in the `x`-th stretch of `size` cells just when dividing
/// its place by `size` gives `x`.
pub proof fn lemma_stretch(size: int, x: int, c: int)
    requires
        1 <= size,
    ensures
        (x * size <= c < (x + 1) * size) <==> c / size == x,
{
    vstd::arithmetic::div_mod::lemma_fundamental_div_mod(c, size);
    vstd::arithmetic::div_mod::lemma_mod_bound(c, size);
    let q = c / size;
    assert(size * q == q * size) by (nonlinear_arith);
    assert((q + 1) * size == q * size + size) by (nonlinear_arith);
    assert((x + 1) * size == x * size + size) by (nonlinear_arith);
    if x * size <= c < (x + 1) * size {
        if x < q {
            assert((x + 1) * size <= q * size) by (nonlinear_arith)
                requires
                    x + 1 <= q,
                    1 <= size,
            ;
        }
        if q < x {
            assert((q + 1) * size <= x * size) by (nonlinear_arith)
                requires
                    q + 1 <= x,
                    1 <= size,
            ;
        }
    }
}

/// One for `true`, zero for `false`.
pub open spec fn one_if(b: bool) -> int {
    if b {
        1
    } else {
        0
    }
}

impl<'a> Solver<'a> {
    /// Whether the region in column `x` and row `y` exists and is decided.
    pub open spec fn resolved_at(&self, x: int, y: int) -> bool {
        &&& 0 <= x < self.chunks_x
        &&& 0 <= y < self.chunks_y
        &&& self.chunks@[y * self.chunks_x + x] is Some
    }

    /// The pattern of the decided region in column `x` and row `y`.
    pub open spec fn pattern_at(&self, x: int, y: int) -> int {
        self.chunks@[y * self.chunks_x + x]->0 as int
    }

    /// How many of the four neighbours of the region are decided.
    pub open spec fn spec_count_neighbors(&self, x: int, y: int) -> int {
        one_if(self.resolved_at(x - 1, y)) + one_if(self.resolved_at(x + 1, y)) + one_if(
            self.resolved_at(x, y - 1),
        ) + one_if(self.resolved_at(x, y + 1))
    }

    /// Whether the catalog lets pattern `b` lie on `side` of pattern `a`.
    pub open spec fn lets(&self, a: int, side: Direction, b: int) -> bool {
        self.constraints@[a].compatible_with[side.spec_ordinal()]@.contains(b as usize)
    }

    /// Whether pattern `p` may go at `(x, y)`: each decided neighbour lets
    /// it lie on the side that faces `(x, y)`.
    pub open spec fn allowed(&self, x: int, y: int, p: int) -> bool {
        &&& self.resolved_at(x - 1, y) ==> self.lets(self.pattern_at(x - 1, y), Direction::East, p)
        &&& self.resolved_at(x + 1, y) ==> self.lets(self.pattern_at(x + 1, y), Direction::West, p)
        &&& self.resolved_at(x, y - 1) ==> self.lets(self.pattern_at(x, y - 1), Direction::South, p)
        &&& self.resolved_at(x, y + 1) ==> self.lets(self.pattern_at(x, y + 1), Direction::North, p)
    }

    /// Whether no two decided neighbours are in conflict: of each pair,
    /// one lets the other lie beside it.
    pub open spec fn conflict_free(&self) -> bool {
        forall|x: int, y: int| #[trigger]
            self.resolved_at(x, y) ==> {
                &&& self.resolved_at(x + 1, y) ==> {
                    ||| self.lets(self.pattern_at(x, y), Direction::East, self.pattern_at(x + 1, y))
                    ||| self.lets(self.pattern_at(x + 1, y), Direction::West, self.pattern_at(x, y))
                }
                &&& self.resolved_at(x, y + 1) ==> {
                    ||| self.lets(self.pattern_at(x, y), Direction::South, self.pattern_at(x,
                        y + 1))
                    ||| self.lets(self.pattern_at(x, y + 1), Direction::North, self.pattern_at(x,
                        y))
                }
            }
    }

    /// Over the catalog of `patterns`, no conflict means that of any two
    /// decided neighbours each is compatible with the other on the side
    /// where they touch.
    pub proof fn lemma_neighbours_compatible(&self, patterns: Seq<Seq<TileType>>, x: int, y: int)
        requires
            self.wf(),
            self.conflict_free(),
            is_catalog(self.constraints@, patterns, self.chunk_size as int),
            self.resolved_at(x, y),
        ensures
            self.resolved_at(x + 1, y) ==> compatible(
                patterns[self.pattern_at(x, y)],
                patterns[self.pattern_at(x + 1, y)],
                self.chunk_size as int,
                Direction::East,
            ) && compatible(
                patterns[self.pattern_at(x + 1, y)],
                patterns[self.pattern_at(x, y)],
                self.chunk_size as int,
                Direction::West,
            ),
            self.resolved_at(x, y + 1) ==> compatible(
                patterns[self.pattern_at(x, y)],
                patterns[self.pattern_at(x, y + 1)],
                self.chunk_size as int,
                Direction::South,
            ) && compatible(
                patterns[self.pattern_at(x, y + 1)],
                patterns[self.pattern_at(x, y)],
                self.chunk_size as int,
                Direction::North,
            ),
    {
        let size = self.chunk_size as int;
        lemma_cell_index(self.chunks_x as int, self.chunks_y as int, x, y);
        let a = self.pattern_at(x, y);
        if self.resolved_at(x + 1, y) {
            lemma_cell_index(self.chunks_x as int, self.chunks_y as int, x + 1, y);
            let b = self.pattern_at(x + 1, y);
            lemma_compatible_symmetric(patterns[a], patterns[b], size, Direction::East);
            assert(is_compatible_list(
                self.constraints@[a].compatible_with[3]@,
                patterns,
                a,
                size,
                side_of(3),
            ));
            assert(is_compatible_list(
                self.constraints@[b].compatible_with[2]@,
                patterns,
                b,
                size,
                side_of(2),
            ));
        }
        if self.resolved_at(x, y + 1) {
            lemma_cell_index(self.chunks_x as int, self.chunks_y as int, x, y + 1);
            let b = self.pattern_at(x, y + 1);
            lemma_compatible_symmetric(patterns[a], patterns[b], size, Direction::South);
            assert(is_compatible_list(
                self.constraints@[a].compatible_with[1]@,
                patterns,
                a,
                size,
                side_of(1),
            ));
            assert(is_compatible_list(
                self.constraints@[b].compatible_with[0]@,
                patterns,
                b,
                size,
                side_of(0),
            ));
        }
    }

    /// Whether region `i` is listed as undecided.
    pub open spec fn is_remaining(&self, i: int) -> bool {
        exists|r: int| 0 <= r < self.remaining@.len() && self.remaining@[r].0 == i
    }

    /// The solver's invariant.
    pub open spec fn wf(&self) -> bool {
        &&& 1 <= self.chunk_size <= MAX_DIMENSION
        &&& self.chunks_x <= MAX_DIMENSION
        &&& self.chunks_y <= MAX_DIMENSION
        &&& self.chunks@.len() == self.chunks_x * self.chunks_y
        &&& self.remaining@.len() <= self.chunks@.len()
        &&& catalog_ok(self.constraints@, self.chunk_size as int)
        &&& forall|i: int|
            0 <= i < self.chunks@.len() && (#[trigger] self.chunks@[i]) is Some
                ==> self.chunks@[i]->0 < self.constraints@.len()
        &&& forall|r: int|
            0 <= r < self.remaining@.len() ==> (#[trigger] self.remaining@[r]).0
                < self.chunks@.len()
        &&& forall|r: int, s: int|
            0 <= r < s < self.remaining@.len() ==> self.remaining@[r].0 != self.remaining@[s].0
        &&& self.possible ==> forall|i: int|
            0 <= i < self.chunks@.len() ==> ((#[trigger] self.chunks@[i]) is None
                <==> self.is_remaining(i))
    }

    /// Whether the grid of regions lies on `map`.
    pub open spec fn fits(&self, map: &TileMap) -> bool {
        &&& self.chunks_x * self.chunk_size <= map.width
        &&& self.chunks_y * self.chunk_size <= map.height
    }

    /// A solver for `map` with nothing decided yet.
    pub fn new(constraints: &'a Vec<MapChunk>, chunk_size: i32,
        map: &TileMap) -> (solver: Solver<'a>)
        requires
            map.wf(),
            1 <= chunk_size <= MAX_DIMENSION,
            catalog_ok(constraints@, chunk_size as int),
        ensures
            solver.wf(),
            solver.fits(map),
            solver.conflict_free(),
            solver.possible,
            solver.constraints == constraints,
            solver.chunk_size == chunk_size,
            solver.chunks_x == map.width / chunk_size,
            solver.chunks_y == map.height / chunk_size,
            forall|i: int| 0 <= i < solver.chunks@.len() ==> solver.chunks@[i] is None,
            solver.remaining@.len() == solver.chunks@.len(),
            forall|i: int|
                0 <= i < solver.remaining@.len() ==> solver.remaining@[i] == (i as usize, 0i32),
            (forall|i: int| 0 <= i < map.tiles@.len() ==> map.tiles@[i] == TileType::Wall)
                ==> solver.rendered(map),
    {
        let chunks_x = (map.width / chunk_size) as usize;
        let chunks_y = (map.height / chunk_size) as usize;
        proof {
            vstd::arithmetic::div_mod::lemma_fundamental_div_mod(
                map.width as int,
                chunk_size as int,
            );
            vstd::arithmetic::div_mod::lemma_fundamental_div_mod(
                map.height as int,
                chunk_size as int,
            );
            vstd::arithmetic::div_mod::lemma_mod_bound(map.width as int, chunk_size as int);
            vstd::arithmetic::div_mod::lemma_mod_bound(map.height as int, chunk_size as int);
            assert(chunks_x * chunk_size == chunk_size * chunks_x) by (nonlinear_arith);
            assert(chunks_y * chunk_size == chunk_size * chunks_y) by (nonlinear_arith);
            assert(chunks_x <= map.width && chunks_y <= map.height) by (nonlinear_arith)
                requires
                    chunks_x * chunk_size <= map.width,
                    chunks_y * chunk_size <= map.height,
                    1 <= chunk_size,
                    0 <= chunks_x,
                    0 <= chunks_y,
            ;
            assert(0 <= chunks_x * chunks_y <= MAX_DIMENSION * MAX_DIMENSION) by (nonlinear_arith)
                requires
                    0 <= chunks_x <= MAX_DIMENSION,
                    0 <= chunks_y <= MAX_DIMENSION,
            ;
        }
        let count: usize = chunks_x * chunks_y;
        let mut remaining: Vec<(usize, i32)> = Vec::new();
        let mut chunks: Vec<Option<usize>> = Vec::new();
        let mut i: usize = 0;
        while i < count
            invariant
                i <= count,
                remaining@.len() == i,
                chunks@.len() == i,
                forall|j: int| 0 <= j < i ==> remaining@[j] == (j as usize, 0i32),
                forall|j: int| 0 <= j < i ==> chunks@[j] is None,
            decreases count - i,
        {
            remaining.push((i, 0));
            chunks.push(None);
            i += 1;
        }
        let solver = Solver {
            constraints,
            chunk_size,
            chunks,
            chunks_x,
            chunks_y,
            remaining,
            possible: true,
        };
        proof {
            assert forall|i: int| 0 <= i < solver.chunks@.len() implies ((
            #[trigger] solver.chunks@[i]) is None <==> solver.is_remaining(i)) by {
                assert(solver.remaining@[i].0 == i);
            }
            assert forall|x: int, y: int| !#[trigger] solver.resolved_at(x, y) by {
                if 0 <= x < chunks_x && 0 <= y < chunks_y {
                    lemma_cell_index(chunks_x as int, chunks_y as int, x, y);
                }
            }
            if forall|i: int| 0 <= i < map.tiles@.len() ==> map.tiles@[i] == TileType::Wall {
                assert forall|i: int| 0 <= i < map.tiles@.len() implies #[trigger] map.tiles@[i]
                    == solver.expected_tile(map.width as int, i) by {
                    let x = col_of(map.width as int, i) / (chunk_size as int);
                    let y = row_of(map.width as int, i) / (chunk_size as int);
                    assert(!solver.resolved_at(x, y));
                }
            }
        }
        solver
    }

    pub fn chunk_idx(&self, x: usize, y: usize) -> (idx: usize)
        requires
            self.wf(),
            x < self.chunks_x,
            y < self.chunks_y,
        ensures
            idx == y * self.chunks_x + x,
            idx < self.chunks@.len(),
    {
        proof {
            lemma_cell_index(self.chunks_x as int, self.chunks_y as int, x as int, y as int);
            assert(0 <= y * self.chunks_x <= MAX_DIMENSION * MAX_DIMENSION) by (nonlinear_arith)
                requires
                    0 <= y < self.chunks_y,
                    self.chunks_y <= MAX_DIMENSION,
                    self.chunks_x <= MAX_DIMENSION,
            ;
        }
        (y * self.chunks_x) + x
    }

    /// Counts the decided neighbours of the region in column `chunk_x` and
    /// row `chunk_y`.
    pub fn count_neighbors(&self, chunk_x: usize, chunk_y: usize) -> (neighbors: i32)
        requires
            self.wf(),
            chunk_x < self.chunks_x,
            chunk_y < self.chunks_y,
        ensures
            neighbors == self.spec_count_neighbors(chunk_x as int, chunk_y as int),
            0 <= neighbors <= 4,
    {
        let mut neighbors: i32 = 0;
        if chunk_x > 0 {
            let left_idx = self.chunk_idx(chunk_x - 1, chunk_y);
            if self.chunks[left_idx].is_some() {
                neighbors += 1;
            }
        }
        if chunk_x < self.chunks_x - 1 {
            let right_idx = self.chunk_idx(chunk_x + 1, chunk_y);
            if self.chunks[right_idx].is_some() {
                neighbors += 1;
            }
        }
        if chunk_y > 0 {
            let up_idx = self.chunk_idx(chunk_x, chunk_y - 1);
            if self.chunks[up_idx].is_some() {
                neighbors += 1;
            }
        }
        if chunk_y < self.chunks_y - 1 {
            let down_idx = self.chunk_idx(chunk_x, chunk_y + 1);
            if self.chunks[down_idx].is_some() {
                neighbors += 1;
            }
        }
        neighbors
    }

    /// Writes the tiles of pattern `new_chunk_idx` onto the region in
    /// column `chunk_x` and row `chunk_y` of the map.
    pub fn apply_constraints_to_map(
        &self,
        map: &mut TileMap,
        chunk_x: usize,
        chunk_y: usize,
        new_chunk_idx: usize,
    )
        requires
            self.wf(),
            old(map).wf(),
            self.fits(old(map)),
            chunk_x < self.chunks_x,
            chunk_y < self.chunks_y,
            new_chunk_idx < self.constraints@.len(),
        ensures
            final(map).wf(),
            final(map).same_but_tiles(old(map)),
            replaced(
                old(map).tiles@,
                final(map).tiles@,
                old(map).width as int,
                |cx: int, cy: int| self.covers(chunk_x as int, chunk_y as int, cx, cy),
                |cx: int, cy: int|
                    self.pattern_tile(new_chunk_idx as int, chunk_x as int, chunk_y as int, cx, cy),
            ),
    {
        let size = self.chunk_size;
        let ghost w = map.width as int;
        let ghost h = map.height as int;
        proof {
            assert(0 <= chunk_x * size && (chunk_x + 1) * size <= self.chunks_x * size && (chunk_x
                + 1) * size == chunk_x * size + size) by (nonlinear_arith)
                requires
                    0 <= chunk_x < self.chunks_x,
                    1 <= size,
            ;
            assert(0 <= chunk_y * size && (chunk_y + 1) * size <= self.chunks_y * size && (chunk_y
                + 1) * size == chunk_y * size + size) by (nonlinear_arith)
                requires
                    0 <= chunk_y < self.chunks_y,
                    1 <= size,
            ;
        }
        let lx: i32 = chunk_x as i32 * size;
        let rx: i32 = lx + size;
        let ty: i32 = chunk_y as i32 * size;
        let by: i32 = ty + size;
        let pattern = &self.constraints[new_chunk_idx].pattern;
        proof {
            assert(size * size <= MAX_DIMENSION * MAX_DIMENSION) by (nonlinear_arith)
                requires
                    1 <= size <= MAX_DIMENSION,
            ;
        }
        let mut i: usize = 0;
        let mut y: i32 = ty;
        while y < by
            invariant
                self.wf(),
                map.wf(),
                map.same_but_tiles(old(map)),
                w == map.width,
                h == map.height,
                size == self.chunk_size,
                new_chunk_idx < self.constraints@.len(),
                pattern@ == self.constraints@[new_chunk_idx as int].pattern@,
                pattern@.len() == size * size,
                lx == chunk_x * size,
                rx == lx + size,
                ty == chunk_y * size,
                by == ty + size,
                0 <= lx,
                rx <= w,
                0 <= ty,
                by <= h,
                ty <= y <= by,
                i == (y - ty) * size,
                size * size <= 0x1000_0000,
                replaced(
                    old(map).tiles@,
                    map.tiles@,
                    w,
                    |cx: int, cy: int| lx <= cx < rx && ty <= cy < y,
                    |cx: int, cy: int| pattern@[(cy - ty) * size + (cx - lx)],
                ),
            decreases by - y,
        {
            proof {
                assert((y - ty) * size + size <= size * size) by (nonlinear_arith)
                    requires
                        0 <= y - ty < size,
                ;
            }
            let mut x: i32 = lx;
            while x < rx
                invariant
                    self.wf(),
                    map.wf(),
                    map.same_but_tiles(old(map)),
                    w == map.width,
                    h == map.height,
                    size == self.chunk_size,
                    pattern@.len() == size * size,
                    rx == lx + size,
                    by == ty + size,
                    0 <= lx,
                    rx <= w,
                    0 <= ty,
                    by <= h,
                    ty <= y < by,
                    lx <= x <= rx,
                    i == (y - ty) * size + (x - lx),
                    (y - ty) * size + size <= size * size,
                    size * size <= 0x1000_0000,
                    replaced(
                        old(map).tiles@,
                        map.tiles@,
                        w,
                        |cx: int, cy: int|
                            lx <= cx < rx && (ty <= cy < y || (cy == y && cx < x)),
                        |cx: int, cy: int| pattern@[(cy - ty) * size + (cx - lx)],
                    ),
                decreases rx - x,
            {
                proof {
                    lemma_cell_unique(w, h, x as int, y as int);
                }
                let map_idx = map.xy_idx(x, y);
                map.tiles[map_idx] = pattern[i];
                i += 1;
                x += 1;
            }
            proof {
                assert((y - ty) * size + size == (y + 1 - ty) * size) by (nonlinear_arith);
            }
            y += 1;
        }
    }

    /// The column and row of region `idx`.
    pub fn chunk_xy(&self, idx: usize) -> (at: (usize, usize))
        requires
            self.wf(),
            idx < self.chunks@.len(),
        ensures
            at.0 == idx % self.chunks_x,
            at.1 == idx / self.chunks_x,
            at.0 < self.chunks_x,
            at.1 < self.chunks_y,
            at.1 * self.chunks_x + at.0 == idx,
    {
        proof {
            assert(self.chunks_x > 0 && self.chunks_y > 0) by (nonlinear_arith)
                requires
                    0 < self.chunks_x * self.chunks_y,
                    0 <= self.chunks_x,
                    0 <= self.chunks_y,
            ;
            crate::tile_map::lemma_index_cell(
                self.chunks_x as int,
                self.chunks_y as int,
                idx as int,
            );
        }
        (idx % self.chunks_x, idx / self.chunks_x)
    }

    /// Counts the decided neighbours of every undecided region anew, and
    /// tells the place in `remaining` of the first region that has the
    /// most, if any has one.
    pub fn recount(&mut self) -> (best: Option<usize>)
        requires
            old(self).wf(),
        ensures
            final(self).wf(),
            final(self).constraints == old(self).constraints,
            final(self).chunk_size == old(self).chunk_size,
            final(self).chunks == old(self).chunks,
            final(self).chunks_x == old(self).chunks_x,
            final(self).chunks_y == old(self).chunks_y,
            final(self).possible == old(self).possible,
            old(self).conflict_free() ==> final(self).conflict_free(),
            final(self).remaining@.len() == old(self).remaining@.len(),
            forall|r: int|
                0 <= r < final(self).remaining@.len() ==> {
                    let idx = old(self).remaining@[r].0;
                    &&& (#[trigger] final(self).remaining@[r]).0 == idx
                    &&& final(self).remaining@[r].1 == old(self).spec_count_neighbors(
                        idx as int % old(self).chunks_x as int,
                        idx as int / old(self).chunks_x as int,
                    )
                },
            match best {
                None => forall|r: int|
                    0 <= r < final(self).remaining@.len()
                        ==> (#[trigger] final(self).remaining@[r]).1 == 0,
                Some(b) => {
                    &&& b < final(self).remaining@.len()
                    &&& final(self).remaining@[b as int].1 > 0
                    &&& forall|r: int|
                        0 <= r < final(self).remaining@.len()
                            ==> (#[trigger] final(self).remaining@[r]).1
                            <= final(self).remaining@[b as int].1
                    &&& forall|r: int|
                        0 <= r < b
                            ==> (#[trigger] final(self).remaining@[r]).1 < final(
                            self).remaining@[b as int].1
                },
            },
    {
        let mut counted: Vec<(usize, i32)> = Vec::new();
        let mut best: Option<usize> = None;
        let mut most: i32 = 0;
        let mut r: usize = 0;
        while r < self.remaining.len()
            invariant
                self.wf(),
                r <= self.remaining@.len(),
                counted@.len() == r,
                forall|k: int|
                    0 <= k < r ==> {
                        let idx = self.remaining@[k].0;
                        &&& (#[trigger] counted@[k]).0 == idx
                        &&& counted@[k].1 == self.spec_count_neighbors(
                            idx as int % self.chunks_x as int,
                            idx as int / self.chunks_x as int,
                        )
                        &&& 0 <= counted@[k].1 <= 4
                    },
                0 <= most <= 4,
                match best {
                    None => most == 0 && forall|k: int|
                        0 <= k < r ==> (#[trigger] counted@[k]).1 == 0,
                    Some(b) => {
                        &&& b < r
                        &&& most > 0
                        &&& counted@[b as int].1 == most
                        &&& forall|k: int| 0 <= k < r ==> (#[trigger] counted@[k]).1 <= most
                        &&& forall|k: int| 0 <= k < b ==> (#[trigger] counted@[k]).1 < most
                    },
                },
            decreases self.remaining@.len() - r,
        {
            let idx = self.remaining[r].0;
            let (chunk_x, chunk_y) = self.chunk_xy(idx);
            let neighbor_count = self.count_neighbors(chunk_x, chunk_y);
            if neighbor_count > most {
                most = neighbor_count;
                best = Some(r);
            }
            counted.push((idx, neighbor_count));
            r += 1;
        }
        let ghost before = *self;
        self.remaining = counted;
        proof {
            assert forall|i: int| 0 <= i < self.chunks@.len() implies (before.is_remaining(i)
                <==> self.is_remaining(i)) by {
                if before.is_remaining(i) {
                    let k = choose|k: int|
                        0 <= k < before.remaining@.len() && before.remaining@[k].0 == i;
                    assert(self.remaining@[k].0 == i);
                }
                if self.is_remaining(i) {
                    let k = choose|k: int|
                        0 <= k < self.remaining@.len() && self.remaining@[k].0 == i;
                    assert(before.remaining@[k].0 == i);
                }
            }
            assert forall|x2: int, y2: int| #[trigger]
                self.resolved_at(x2, y2) == before.resolved_at(x2, y2) by {}
            assert forall|x2: int, y2: int| #[trigger]
                self.pattern_at(x2, y2) == before.pattern_at(x2, y2) by {}
        }
        best
    }

    /// Whether pattern `p` may go at `(chunk_x, chunk_y)`.
    pub fn is_allowed(&self, chunk_x: usize, chunk_y: usize, p: usize) -> (ok: bool)
        requires
            self.wf(),
            chunk_x < self.chunks_x,
            chunk_y < self.chunks_y,
        ensures
            ok == self.allowed(chunk_x as int, chunk_y as int, p as int),
    {
        if chunk_x > 0 {
            let left = self.chunk_idx(chunk_x - 1, chunk_y);
            if let Some(n) = self.chunks[left] {
                if !holds(&self.constraints[n].compatible_with[Direction::East.ordinal()], p) {
                    return false;
                }
            }
        }
        if chunk_x < self.chunks_x - 1 {
            let right = self.chunk_idx(chunk_x + 1, chunk_y);
            if let Some(n) = self.chunks[right] {
                if !holds(&self.constraints[n].compatible_with[Direction::West.ordinal()], p) {
                    return false;
                }
            }
        }
        if chunk_y > 0 {
            let up = self.chunk_idx(chunk_x, chunk_y - 1);
            if let Some(n) = self.chunks[up] {
                if !holds(&self.constraints[n].compatible_with[Direction::South.ordinal()], p) {
                    return false;
                }
            }
        }
        if chunk_y < self.chunks_y - 1 {
            let down = self.chunk_idx(chunk_x, chunk_y + 1);
            if let Some(n) = self.chunks[down] {
                if !holds(&self.constraints[n].compatible_with[Direction::North.ordinal()], p) {
                    return false;
                }
            }
        }
        true
    }

    /// The list that the first decided neighbour of `(x, y)` gives, the
    /// neighbours taken in the order left, right, up, down; empty where no
    /// neighbour is decided.
    pub open spec fn first_option(&self, x: int, y: int) -> Seq<usize> {
        if self.resolved_at(x - 1, y) {
            self.constraints@[self.pattern_at(x - 1,
                y)].compatible_with[Direction::East.spec_ordinal()]@
        } else if self.resolved_at(x + 1, y) {
            self.constraints@[self.pattern_at(x + 1,
                y)].compatible_with[Direction::West.spec_ordinal()]@
        } else if self.resolved_at(x, y - 1) {
            self.constraints@[self.pattern_at(x,
                y - 1)].compatible_with[Direction::South.spec_ordinal()]@
        } else if self.resolved_at(x, y + 1) {
            self.constraints@[self.pattern_at(x,
                y + 1)].compatible_with[Direction::North.spec_ordinal()]@
        } else {
            Seq::empty()
        }
    }

    /// The patterns among the first `n` of `first_option` that may go at
    /// `(x, y)`, each once, in the order of the list.
    pub open spec fn surviving(&self, x: int, y: int, n: int) -> Seq<usize>
        decreases n,
    {
        if n <= 0 {
            Seq::empty()
        } else {
            let before = self.surviving(x, y, n - 1);
            let p = self.first_option(x, y)[n - 1];
            if self.allowed(x, y, p as int) && !before.contains(p) {
                before.push(p)
            } else {
                before
            }
        }
    }

    /// The patterns that every decided neighbour of `(x, y)` lets lie
    /// beside it.
    pub open spec fn spec_candidates(&self, x: int, y: int) -> Seq<usize> {
        self.surviving(x, y, self.first_option(x, y).len() as int)
    }

    /// Every survivor is a pattern of the catalog that may go at `(x, y)`,
    /// and there are no more survivors than entries looked at.
    pub proof fn lemma_surviving(&self, x: int, y: int, n: int)
        requires
            self.wf(),
            0 <= n <= self.first_option(x, y).len(),
        ensures
            self.surviving(x, y, n).len() <= n,
            forall|i: int|
                0 <= i < self.surviving(x, y, n).len() ==> {
                    let p = #[trigger] self.surviving(x, y, n)[i];
                    p < self.constraints@.len() && self.allowed(x, y, p as int)
                },
        decreases n,
    {
        if n > 0 {
            self.lemma_surviving(x, y, n - 1);
            let option = self.first_option(x, y);
            if self.resolved_at(x - 1, y) {
                lemma_cell_index(self.chunks_x as int, self.chunks_y as int, x - 1, y);
                assert(option[n - 1] < self.constraints@.len());
            } else if self.resolved_at(x + 1, y) {
                lemma_cell_index(self.chunks_x as int, self.chunks_y as int, x + 1, y);
                assert(option[n - 1] < self.constraints@.len());
            } else if self.resolved_at(x, y - 1) {
                lemma_cell_index(self.chunks_x as int, self.chunks_y as int, x, y - 1);
                assert(option[n - 1] < self.constraints@.len());
            } else if self.resolved_at(x, y + 1) {
                lemma_cell_index(self.chunks_x as int, self.chunks_y as int, x, y + 1);
                assert(option[n - 1] < self.constraints@.len());
            }
        }
    }

    /// Lists the patterns that every decided neighbour of the region lets
    /// lie beside it.
    pub fn candidates(&self, chunk_x: usize, chunk_y: usize) -> (list: Vec<usize>)
        requires
            self.wf(),
            chunk_x < self.chunks_x,
            chunk_y < self.chunks_y,
        ensures
            list@ == self.spec_candidates(chunk_x as int, chunk_y as int),
            list@.len() < i32::MAX,
            forall|i: int|
                0 <= i < list@.len() ==> (#[trigger] list@[i]) < self.constraints@.len()
                    && self.allowed(chunk_x as int, chunk_y as int, list@[i] as int),
    {
        let ghost x = chunk_x as int;
        let ghost y = chunk_y as int;
        let mut list: Vec<usize> = Vec::new();
        let mut source: Option<(usize, usize)> = None;
        if chunk_x > 0 && self.chunks[self.chunk_idx(chunk_x - 1, chunk_y)].is_some() {
            source = Some((self.chunk_idx(chunk_x - 1, chunk_y), Direction::East.ordinal()));
        } else if chunk_x < self.chunks_x - 1 && self.chunks[self.chunk_idx(
            chunk_x + 1,
            chunk_y,
        )].is_some() {
            source = Some((self.chunk_idx(chunk_x + 1, chunk_y), Direction::West.ordinal()));
        } else if chunk_y > 0 && self.chunks[self.chunk_idx(chunk_x, chunk_y - 1)].is_some() {
            source = Some((self.chunk_idx(chunk_x, chunk_y - 1), Direction::South.ordinal()));
        } else if chunk_y < self.chunks_y - 1 && self.chunks[self.chunk_idx(
            chunk_x,
            chunk_y + 1,
        )].is_some() {
            source = Some((self.chunk_idx(chunk_x, chunk_y + 1), Direction::North.ordinal()));
        }
        match source {
            None => {
                assert(self.first_option(x, y) =~= Seq::<usize>::empty());
            },
            Some((neighbour, side)) => {
                let n = self.chunks[neighbour].unwrap();
                let option = &self.constraints[n].compatible_with[side];
                assert(option@ == self.first_option(x, y));
                let mut i: usize = 0;
                while i < option.len()
                    invariant
                        self.wf(),
                        chunk_x < self.chunks_x,
                        chunk_y < self.chunks_y,
                        x == chunk_x,
                        y == chunk_y,
                        option@ == self.first_option(x, y),
                        i <= option@.len(),
                        list@ == self.surviving(x, y, i as int),
                    decreases option@.len() - i,
                {
                    let p = option[i];
                    if self.is_allowed(chunk_x, chunk_y, p) && !holds(&list, p) {
                        list.push(p);
                    }
                    i += 1;
                }
            },
        }
        proof {
            self.lemma_surviving(x, y, self.first_option(x, y).len() as int);
            if self.first_option(x, y).len() > 0 {
                if self.resolved_at(x - 1, y) {
                    lemma_cell_index(self.chunks_x as int, self.chunks_y as int, x - 1, y);
                } else if self.resolved_at(x + 1, y) {
                    lemma_cell_index(self.chunks_x as int, self.chunks_y as int, x + 1, y);
                } else if self.resolved_at(x, y - 1) {
                    lemma_cell_index(self.chunks_x as int, self.chunks_y as int, x, y - 1);
                } else if self.resolved_at(x, y + 1) {
                    lemma_cell_index(self.chunks_x as int, self.chunks_y as int, x, y + 1);
                }
            }
        }
        list
    }

    /// Whether region `(x, y)` covers the cell `(cx, cy)` of the map.
    pub open spec fn covers(&self, x: int, y: int, cx: int, cy: int) -> bool {
        &&& x * self.chunk_size <= cx < (x + 1) * self.chunk_size
        &&& y * self.chunk_size <= cy < (y + 1) * self.chunk_size
    }

    /// The tile that pattern `p`, laid on region `(x, y)`, puts on the
    /// cell `(cx, cy)`.
    pub open spec fn pattern_tile(&self, p: int, x: int, y: int, cx: int, cy: int) -> TileType {
        self.constraints@[p].pattern@[(cy - y * self.chunk_size) * self.chunk_size + (cx - x
            * self.chunk_size)]
    }

    /// The tile that the decided regions put on the cell with index `i` of
    /// a map `width` wide: the tile of the pattern of the cell's region,
    /// and a wall where the region is not decided or the cell has none.
    pub open spec fn expected_tile(&self, width: int, i: int) -> TileType {
        let cx = col_of(width, i);
        let cy = row_of(width, i);
        let x = cx / (self.chunk_size as int);
        let y = cy / (self.chunk_size as int);
        if self.resolved_at(x, y) {
            self.pattern_tile(self.pattern_at(x, y), x, y, cx, cy)
        } else {
            TileType::Wall
        }
    }

    /// Whether the map shows just what has been decided.
    pub open spec fn rendered(&self, map: &TileMap) -> bool {
        forall|i: int|
            0 <= i < map.tiles@.len() ==> #[trigger] map.tiles@[i] == self.expected_tile(
                map.width as int,
                i,
            )
    }

    /// Drawing the pattern of a region just decided on a map that showed
    /// what was decided before gives a map that shows what is decided now.
    pub proof fn lemma_placed_rendered(
        &self,
        before: &Solver<'a>,
        map: &TileMap,
        map_before: &TileMap,
        c: int,
        p: int,
    )
        requires
            before.wf(),
            map_before.wf(),
            map.wf(),
            map.same_but_tiles(map_before),
            before.rendered(map_before),
            0 <= c < before.chunks@.len(),
            before.chunks@[c] is None,
            self.constraints == before.constraints,
            self.chunk_size == before.chunk_size,
            self.chunks_x == before.chunks_x,
            self.chunks_y == before.chunks_y,
            self.chunks@ == before.chunks@.update(c, Some(p as usize)),
            p == p as usize,
            replaced(
                map_before.tiles@,
                map.tiles@,
                map_before.width as int,
                |cx: int, cy: int|
                    before.covers(c % (before.chunks_x as int), c / (before.chunks_x as int), cx,
                        cy),
                |cx: int, cy: int|
                    before.pattern_tile(
                        p,
                        c % (before.chunks_x as int),
                        c / (before.chunks_x as int),
                        cx,
                        cy,
                    ),
            ),
        ensures
            self.rendered(map),
    {
        let w = map.width as int;
        let h = map.height as int;
        let size = self.chunk_size as int;
        let wide = self.chunks_x as int;
        let high = self.chunks_y as int;
        assert(wide > 0 && high > 0) by (nonlinear_arith)
            requires
                0 < wide * high,
                0 <= wide,
                0 <= high,
        ;
        lemma_index_cell(wide, high, c);
        let x = c % wide;
        let y = c / wide;
        assert forall|i: int| 0 <= i < map.tiles@.len() implies #[trigger] map.tiles@[i]
            == self.expected_tile(w, i) by {
            lemma_index_cell(w, h, i);
            let cx = col_of(w, i);
            let cy = row_of(w, i);
            let rx = cx / size;
            let ry = cy / size;
            lemma_stretch(size, x, cx);
            lemma_stretch(size, y, cy);
            assert(map_before.tiles@[i] == before.expected_tile(w, i));
            if rx == x && ry == y {
                assert(before.covers(x, y, cx, cy));
                assert(self.resolved_at(x, y));
                assert(self.pattern_at(x, y) == p);
            } else {
                assert(!before.covers(x, y, cx, cy));
                vstd::arithmetic::div_mod::lemma_div_pos_is_pos(cx, size);
                vstd::arithmetic::div_mod::lemma_div_pos_is_pos(cy, size);
                if 0 <= rx < wide && 0 <= ry < high {
                    lemma_cell_index(wide, high, rx, ry);
                    assert(ry * wide + rx != c);
                }
                assert(self.resolved_at(rx, ry) == before.resolved_at(rx, ry));
            }
        }
    }

    /// Whether the `size * size` tiles of the region in column `x` and row
    /// `y`, read row by row off a map `width` wide, are `pattern`.
    pub open spec fn region_is(
        tiles: Seq<TileType>,
        width: int,
        size: int,
        x: int,
        y: int,
        pattern: Seq<TileType>,
    ) -> bool {
        &&& pattern.len() == size * size
        &&& forall|px: int, py: int|
            0 <= px < size && 0 <= py < size ==> tiles[crate::tile_map::cell_index(
                width,
                x * size + px,
                y * size + py,
            )] == #[trigger] pattern[py * size + px]
    }

    /// Whether the map is put together from the patterns: each region
    /// shows one of them, neighbouring regions show patterns that are
    /// compatible where they touch, and what lies outside the regions is
    /// wall.
    pub open spec fn assembled(
        tiles: Seq<TileType>,
        width: int,
        height: int,
        size: int,
        patterns: Seq<Seq<TileType>>,
        chosen: Seq<int>,
    ) -> bool {
        let wide = width / size;
        let high = height / size;
        &&& chosen.len() == wide * high
        &&& forall|x: int, y: int|
            0 <= x < wide && 0 <= y < high ==> {
                let p = #[trigger] chosen[y * wide + x];
                0 <= p < patterns.len() && Self::region_is(tiles, width, size, x, y, patterns[p])
            }
        &&& forall|x: int, y: int|
            0 <= x < wide - 1 && 0 <= y < high ==> compatible(
                patterns[#[trigger] chosen[y * wide + x]],
                patterns[chosen[y * wide + (x + 1)]],
                size,
                Direction::East,
            )
        &&& forall|x: int, y: int|
            0 <= x < wide && 0 <= y < high - 1 ==> compatible(
                patterns[#[trigger] chosen[y * wide + x]],
                patterns[chosen[(y + 1) * wide + x]],
                size,
                Direction::South,
            )
        &&& forall|i: int|
            0 <= i < tiles.len() && (col_of(width, i) >= wide * size || row_of(width, i) >= high
                * size) ==> #[trigger] tiles[i] == TileType::Wall
    }

    /// The patterns that the solver has decided on, region by region.
    pub open spec fn chosen(&self) -> Seq<int> {
        Seq::new(self.chunks@.len(), |i: int| self.chunks@[i]->0 as int)
    }

    /// A solve that has come to its end without conflict has put the map
    /// together from the patterns of the catalog.
    pub proof fn lemma_solved(&self, map: &TileMap, patterns: Seq<Seq<TileType>>)
        requires
            self.wf(),
            self.possible,
            self.remaining@.len() == 0,
            self.conflict_free(),
            map.wf(),
            self.rendered(map),
            self.chunks_x == map.width / self.chunk_size,
            self.chunks_y == map.height / self.chunk_size,
            self.fits(map),
            is_catalog(self.constraints@, patterns, self.chunk_size as int),
        ensures
            Self::assembled(
                map.tiles@,
                map.width as int,
                map.height as int,
                self.chunk_size as int,
                patterns,
                self.chosen(),
            ),
    {
        let tiles = map.tiles@;
        let w = map.width as int;
        let h = map.height as int;
        let size = self.chunk_size as int;
        let wide = self.chunks_x as int;
        let high = self.chunks_y as int;
        let chosen = self.chosen();
        assert forall|i: int| 0 <= i < self.chunks@.len() implies (
        #[trigger] self.chunks@[i]) is Some by {
            if self.chunks@[i] is None {
                assert(self.is_remaining(i));
            }
        }
        assert forall|x: int, y: int| 0 <= x < wide && 0 <= y < high implies {
            let p = #[trigger] chosen[y * wide + x];
            0 <= p < patterns.len() && Self::region_is(tiles, w, size, x, y, patterns[p])
        } by {
            lemma_cell_index(wide, high, x, y);
            let c = y * wide + x;
            let p = chosen[c];
            assert(self.chunks@[c] is Some);
            assert(self.resolved_at(x, y));
            assert(self.pattern_at(x, y) == p);
            assert(self.constraints@[p].describes(patterns[p], size));
            assert forall|px: int, py: int|
                0 <= px < size && 0 <= py < size implies tiles[crate::tile_map::cell_index(
                w,
                x * size + px,
                y * size + py,
            )] == #[trigger] patterns[p][py * size + px] by {
                let cx = x * size + px;
                let cy = y * size + py;
                assert(0 <= x * size && (x + 1) * size <= wide * size && (x + 1) * size == x
                    * size + size) by (nonlinear_arith)
                    requires
                        0 <= x < wide,
                        1 <= size,
                ;
                assert(0 <= y * size && (y + 1) * size <= high * size && (y + 1) * size == y
                    * size + size) by (nonlinear_arith)
                    requires
                        0 <= y < high,
                        1 <= size,
                ;
                lemma_cell_unique(w, h, cx, cy);
                let i = crate::tile_map::cell_index(w, cx, cy);
                assert(tiles[i] == self.expected_tile(w, i));
                lemma_stretch(size, x, cx);
                lemma_stretch(size, y, cy);
            }
        }
        assert forall|x: int, y: int| 0 <= x < wide - 1 && 0 <= y < high implies compatible(
            patterns[#[trigger] chosen[y * wide + x]],
            patterns[chosen[y * wide + (x + 1)]],
            size,
            Direction::East,
        ) by {
            lemma_cell_index(wide, high, x, y);
            lemma_cell_index(wide, high, x + 1, y);
            assert(self.resolved_at(x, y));
            assert(self.resolved_at(x + 1, y));
            self.lemma_neighbours_compatible(patterns, x, y);
        }
        assert forall|x: int, y: int| 0 <= x < wide && 0 <= y < high - 1 implies compatible(
            patterns[#[trigger] chosen[y * wide + x]],
            patterns[chosen[(y + 1) * wide + x]],
            size,
            Direction::South,
        ) by {
            lemma_cell_index(wide, high, x, y);
            lemma_cell_index(wide, high, x, y + 1);
            assert(self.resolved_at(x, y));
            assert(self.resolved_at(x, y + 1));
            self.lemma_neighbours_compatible(patterns, x, y);
        }
        assert forall|i: int|
            0 <= i < tiles.len() && (col_of(w, i) >= wide * size || row_of(w, i) >= high
                * size) implies #[trigger] tiles[i] == TileType::Wall by {
            lemma_index_cell(w, h, i);
            let cx = col_of(w, i);
            let cy = row_of(w, i);
            assert(tiles[i] == self.expected_tile(w, i));
            lemma_stretch(size, cx / size, cx);
            lemma_stretch(size, cy / size, cy);
            if cx >= wide * size && cx / size < wide {
                assert((cx / size + 1) * size <= wide * size) by (nonlinear_arith)
                    requires
                        cx / size + 1 <= wide,
                        1 <= size,
                ;
            }
            if cy >= high * size && cy / size < high {
                assert((cy / size + 1) * size <= high * size) by (nonlinear_arith)
                    requires
                        cy / size + 1 <= high,
                        1 <= size,
                ;
            }
        }
    }

    /// Whether `self` is `before` after region `c`, the `r`-th of the
    /// undecided, was decided as pattern `p` and drawn on the map.
    pub open spec fn placed(
        &self,
        before: &Solver<'a>,
        map: &TileMap,
        map_before: &TileMap,
        r: int,
        p: int,
    ) -> bool {
        let c = before.remaining@[r].0 as int;
        let x = c % (before.chunks_x as int);
        let y = c / (before.chunks_x as int);
        &&& self.possible
        &&& self.remaining@ == before.remaining@.remove(r)
        &&& self.chunks@ == before.chunks@.update(c, Some(p as usize))
        &&& replaced(
            map_before.tiles@,
            map.tiles@,
            map_before.width as int,
            |cx: int, cy: int| before.covers(x, y, cx, cy),
            |cx: int, cy: int| before.pattern_tile(p, x, y, cx, cy),
        )
    }

    /// Whether pattern `q` may lie on every side of every pattern of the
    /// catalog.
    pub open spec fn fits_everywhere(&self, q: int) -> bool {
        &&& 0 <= q < self.constraints@.len()
        &&& forall|a: int, side: int|
            0 <= a < self.constraints@.len() && 0 <= side < 4 ==> (
            #[trigger] self.constraints@[a].compatible_with[side])@.contains(q as usize)
    }

    /// A pattern that may go at `(x, y)` and stands among the first `n`
    /// entries of the list that is looked through is one of the patterns
    /// that are kept.
    pub proof fn lemma_survivor_kept(&self, x: int, y: int, n: int, j: int)
        requires
            0 <= j < n <= self.first_option(x, y).len(),
            self.allowed(x, y, self.first_option(x, y)[j] as int),
        ensures
            self.surviving(x, y, n).contains(self.first_option(x, y)[j]),
        decreases n,
    {
        let q = self.first_option(x, y)[j];
        let before = self.surviving(x, y, n - 1);
        let now = self.surviving(x, y, n);
        if j < n - 1 {
            self.lemma_survivor_kept(x, y, n - 1, j);
            let at = choose|at: int| 0 <= at < before.len() && before[at] == q;
            assert(now[at] == q);
        } else {
            if before.contains(q) {
                let at = choose|at: int| 0 <= at < before.len() && before[at] == q;
                assert(now[at] == q);
            } else {
                assert(now[now.len() - 1] == q);
            }
        }
    }

    /// Where a pattern fits everywhere, every region with a decided
    /// neighbour has a pattern that may go there.
    pub proof fn lemma_never_stuck(&self, q: int, x: int, y: int)
        requires
            self.wf(),
            self.fits_everywhere(q),
            self.spec_count_neighbors(x, y) > 0,
        ensures
            self.spec_candidates(x, y).len() > 0,
    {
        let wide = self.chunks_x as int;
        let high = self.chunks_y as int;
        let option = self.first_option(x, y);
        if self.resolved_at(x - 1, y) {
            lemma_cell_index(wide, high, x - 1, y);
        }
        if self.resolved_at(x + 1, y) {
            lemma_cell_index(wide, high, x + 1, y);
        }
        if self.resolved_at(x, y - 1) {
            lemma_cell_index(wide, high, x, y - 1);
        }
        if self.resolved_at(x, y + 1) {
            lemma_cell_index(wide, high, x, y + 1);
        }
        assert(self.allowed(x, y, q));
        assert(option.contains(q as usize));
        let j = choose|j: int| 0 <= j < option.len() && option[j] == q as usize;
        self.lemma_survivor_kept(x, y, option.len() as int, j);
    }

    /// Where a pattern fits everywhere, the region that a step takes has
    /// a pattern that may go there.
    pub proof fn lemma_step_finds_one(&self, q: int)
        requires
            self.wf(),
            self.fits_everywhere(q),
        ensures
            forall|r: int| #[trigger] self.takes(r) ==> self.listed_candidates(r).len() > 0,
    {
        assert forall|r: int| #[trigger] self.takes(r) implies self.listed_candidates(r).len()
            > 0 by {
            let c = self.remaining@[r].0 as int;
            self.lemma_never_stuck(q, c % (self.chunks_x as int), c / (self.chunks_x as int));
        }
    }

    /// How many decided neighbours the `r`-th listed undecided region has.
    pub open spec fn listed_count(&self, r: int) -> int {
        let c = self.remaining@[r].0 as int;
        self.spec_count_neighbors(c % (self.chunks_x as int), c / (self.chunks_x as int))
    }

    /// The patterns that may go on the `r`-th listed undecided region.
    pub open spec fn listed_candidates(&self, r: int) -> Seq<usize> {
        let c = self.remaining@[r].0 as int;
        self.spec_candidates(c % (self.chunks_x as int), c / (self.chunks_x as int))
    }

    /// Whether the `r`-th listed undecided region is the one that a step
    /// takes where some region has a decided neighbour: the first in the
    /// list of those that have the most.
    pub open spec fn takes(&self, r: int) -> bool {
        &&& 0 <= r < self.remaining@.len()
        &&& self.listed_count(r) > 0
        &&& forall|s: int|
            0 <= s < self.remaining@.len() ==> #[trigger] self.listed_count(s)
                <= self.listed_count(r)
        &&& forall|s: int| 0 <= s < r ==> #[trigger] self.listed_count(s) < self.listed_count(r)
    }

    /// Whether a step may take the `r`-th listed undecided region: the
    /// one that it takes where some region has a decided neighbour, any
    /// where none has.
    pub open spec fn may_take(&self, r: int) -> bool {
        &&& 0 <= r < self.remaining@.len()
        &&& self.takes(r) || forall|s: int|
            0 <= s < self.remaining@.len() ==> #[trigger] self.listed_count(s) == 0
    }

    /// The list of the undecided regions with the decided neighbours of
    /// each counted anew.
    pub open spec fn recounted(&self) -> Seq<(usize, i32)> {
        Seq::new(
            self.remaining@.len(),
            |r: int| (self.remaining@[r].0, self.listed_count(r) as i32),
        )
    }

    /// A step takes one region only.
    pub proof fn lemma_takes_one(&self, r: int, s: int)
        requires
            self.takes(r),
            self.takes(s),
        ensures
            r == s,
    {
        if r < s {
            assert(self.listed_count(r) < self.listed_count(s));
            assert(self.listed_count(s) <= self.listed_count(r));
        } else if s < r {
            assert(self.listed_count(s) < self.listed_count(r));
            assert(self.listed_count(r) <= self.listed_count(s));
        }
    }

    /// Two solvers with the same decisions agree on the patterns that may
    /// go on a region.
    pub proof fn lemma_same_survivors(&self, other: &Solver<'a>, x: int, y: int, n: int)
        requires
            self.constraints == other.constraints,
            self.chunks == other.chunks,
            self.chunks_x == other.chunks_x,
            self.chunks_y == other.chunks_y,
        ensures
            self.first_option(x, y) == other.first_option(x, y),
            self.surviving(x, y, n) == other.surviving(x, y, n),
        decreases n,
    {
        if n > 0 {
            self.lemma_same_survivors(other, x, y, n - 1);
        }
    }

    /// Whether `self` is `before` after the undecided region `c`, one of
    /// those with the most decided neighbours, was decided as a pattern
    /// `p` that may go there, and drawn on the map.
    pub open spec fn decided(
        &self,
        before: &Solver<'a>,
        map: &TileMap,
        map_before: &TileMap,
        c: int,
        p: int,
    ) -> bool {
        let x = c % (before.chunks_x as int);
        let y = c / (before.chunks_x as int);
        &&& 0 <= c < before.chunks@.len()
        &&& before.chunks@[c] is None
        &&& 0 <= p < before.constraints@.len()
        &&& before.allowed(x, y, p)
        &&& forall|i: int|
            0 <= i < before.chunks@.len() && (#[trigger] before.chunks@[i]) is None
                ==> before.spec_count_neighbors(
                i % (before.chunks_x as int),
                i / (before.chunks_x as int),
            ) <= before.spec_count_neighbors(x, y)
        &&& self.chunks@ == before.chunks@.update(c, Some(p as usize))
        &&& replaced(
            map_before.tiles@,
            map.tiles@,
            map_before.width as int,
            |cx: int, cy: int| before.covers(x, y, cx, cy),
            |cx: int, cy: int| before.pattern_tile(p, x, y, cx, cy),
        )
    }

    /// Decides the `r_idx`-th undecided region as pattern `p` and draws
    /// the pattern on the map.
    pub fn place(&mut self, map: &mut TileMap, r_idx: usize, p: usize)
        requires
            old(self).wf(),
            old(self).possible,
            old(self).conflict_free(),
            old(map).wf(),
            old(self).fits(old(map)),
            r_idx < old(self).remaining@.len(),
            p < old(self).constraints@.len(),
            old(self).rendered(old(map)),
            ({
                let c = old(self).remaining@[r_idx as int].0 as int;
                old(self).allowed(
                    c % (old(self).chunks_x as int),
                    c / (old(self).chunks_x as int),
                    p as int,
                )
            }),
        ensures
            final(self).wf(),
            final(self).conflict_free(),
            final(self).constraints == old(self).constraints,
            final(self).chunk_size == old(self).chunk_size,
            final(self).chunks_x == old(self).chunks_x,
            final(self).chunks_y == old(self).chunks_y,
            final(map).wf(),
            final(map).same_but_tiles(old(map)),
            final(self).placed(old(self), final(map), old(map), r_idx as int, p as int),
            final(self).rendered(final(map)),
    {
        let ghost before = *self;
        let chunk_idx = self.remaining[r_idx].0;
        let (chunk_x, chunk_y) = self.chunk_xy(chunk_idx);
        let ghost x = chunk_x as int;
        let ghost y = chunk_y as int;
        let ghost wide = self.chunks_x as int;
        let ghost high = self.chunks_y as int;
        self.apply_constraints_to_map(map, chunk_x, chunk_y, p);
        self.remaining.remove(r_idx);
        self.chunks[chunk_idx] = Some(p);
        proof {
            assert(before.chunks@[chunk_idx as int] is None) by {
                assert(before.is_remaining(chunk_idx as int));
            }
            self.lemma_placed_rendered(&before, map, old(map), chunk_idx as int, p as int);
        }
        proof {
            assert forall|i: int| 0 <= i < self.chunks@.len() implies ((
            #[trigger] self.chunks@[i]) is None <==> self.is_remaining(i)) by {
                if i == chunk_idx {
                    if self.is_remaining(i) {
                        let k = choose|k: int|
                            0 <= k < self.remaining@.len() && self.remaining@[k].0 == i;
                        if k < r_idx {
                            assert(before.remaining@[k].0 == i);
                        } else {
                            assert(before.remaining@[k + 1].0 == i);
                        }
                    }
                } else {
                    assert(before.chunks@[i] == self.chunks@[i]);
                    if before.is_remaining(i) {
                        let k = choose|k: int|
                            0 <= k < before.remaining@.len() && before.remaining@[k].0 == i;
                        if k < r_idx {
                            assert(self.remaining@[k].0 == i);
                        } else {
                            assert(self.remaining@[k - 1].0 == i);
                        }
                    }
                    if self.is_remaining(i) {
                        let k = choose|k: int|
                            0 <= k < self.remaining@.len() && self.remaining@[k].0 == i;
                        if k < r_idx {
                            assert(before.remaining@[k].0 == i);
                        } else {
                            assert(before.remaining@[k + 1].0 == i);
                        }
                    }
                }
            }
            assert forall|r: int, s: int| 0
                <= r < s < self.remaining@.len() implies self.remaining@[r].0
                != self.remaining@[s].0 by {
                let r0 = if r < r_idx {
                    r
                } else {
                    r + 1
                };
                let s0 = if s < r_idx {
                    s
                } else {
                    s + 1
                };
                assert(self.remaining@[r] == before.remaining@[r0]);
                assert(self.remaining@[s] == before.remaining@[s0]);
            }
            assert forall|r: int| 0 <= r < self.remaining@.len() implies (
            #[trigger] self.remaining@[r]).0 < self.chunks@.len() by {
                let r0 = if r < r_idx {
                    r
                } else {
                    r + 1
                };
                assert(self.remaining@[r] == before.remaining@[r0]);
            }
            assert forall|x2: int, y2: int| #[trigger]
                self.resolved_at(x2, y2) == (before.resolved_at(x2, y2) || (x2 == x && y2
                    == y)) by {
                if 0 <= x2 < wide && 0 <= y2 < high {
                    lemma_cell_index(wide, high, x2, y2);
                }
            }
            assert forall|x2: int, y2: int| before.resolved_at(x2,
                y2) implies #[trigger] self.pattern_at(
                x2,
                y2,
            ) == before.pattern_at(x2, y2) by {
                lemma_cell_index(wide, high, x2, y2);
            }
            assert(self.pattern_at(x, y) == p);
            assert forall|x2: int, y2: int| #[trigger] self.resolved_at(x2, y2) implies {
                &&& self.resolved_at(x2 + 1, y2) ==> {
                    ||| self.lets(self.pattern_at(x2, y2), Direction::East,
                        self.pattern_at(x2 + 1, y2))
                    ||| self.lets(self.pattern_at(x2 + 1, y2), Direction::West,
                        self.pattern_at(x2, y2))
                }
                &&& self.resolved_at(x2, y2 + 1) ==> {
                    ||| self.lets(self.pattern_at(x2, y2), Direction::South, self.pattern_at(x2,
                        y2 + 1))
                    ||| self.lets(self.pattern_at(x2, y2 + 1), Direction::North,
                        self.pattern_at(x2, y2))
                }
            } by {
                assert(self.resolved_at(x2 + 1, y2) == (before.resolved_at(x2 + 1, y2) || (x2 + 1
                    == x && y2 == y)));
                assert(self.resolved_at(x2, y2 + 1) == (before.resolved_at(x2, y2 + 1) || (x2
                    == x && y2 + 1 == y)));
                if before.resolved_at(x2, y2) {
                    assert(self.pattern_at(x2, y2) == before.pattern_at(x2, y2));
                }
                if before.resolved_at(x2 + 1, y2) {
                    assert(self.pattern_at(x2 + 1, y2) == before.pattern_at(x2 + 1, y2));
                }
                if before.resolved_at(x2, y2 + 1) {
                    assert(self.pattern_at(x2, y2 + 1) == before.pattern_at(x2, y2 + 1));
                }
            }
        }
    }

    /// One step of the solve: counts the decided neighbours of the
    /// undecided regions, takes the first of those with the most (any one,
    /// by the dice, where none has a decided neighbour), and decides it as
    /// one of its candidates, by the dice (as any pattern, where it has no
    /// decided neighbour). Where it has no candidate, the solve has
    /// failed. Returns whether the solve is over.
    pub fn iteration(&mut self, map: &mut TileMap, rng: &mut RandomNumberGenerator) -> (done: bool)
        requires
            old(self).wf(),
            old(self).possible,
            old(self).conflict_free(),
            old(self).constraints@.len() >= 1,
            old(map).wf(),
            old(self).fits(old(map)),
            old(self).rendered(old(map)),
        ensures
            final(self).wf(),
            final(self).conflict_free(),
            final(self).rendered(final(map)),
            final(self).constraints == old(self).constraints,
            final(self).chunk_size == old(self).chunk_size,
            final(self).chunks_x == old(self).chunks_x,
            final(self).chunks_y == old(self).chunks_y,
            final(map).wf(),
            final(map).same_but_tiles(old(map)),
            old(self).remaining@.len() == 0 ==> done && final(self).possible
                && final(self).chunks@ == old(self).chunks@
                && final(self).remaining@ == old(self).remaining@
                && final(map).tiles@ == old(map).tiles@,
            old(self).remaining@.len() > 0 ==> final(self).remaining@.len() == old(
                self,
            ).remaining@.len() - 1 && done == !final(self).possible,
            old(self).remaining@.len() > 0 && done ==> final(self).chunks@ == old(self).chunks@
                && final(map).tiles@ == old(map).tiles@,
            old(self).remaining@.len() > 0 && !done ==> exists|c: int, p: int| #[trigger]
                final(self).decided(old(self), final(map), old(map), c, p),
            old(self).remaining@.len() > 0 ==> (done <==> exists|r: int| #[trigger]
                old(self).takes(r) && old(self).listed_candidates(r).len() == 0),
            old(self).remaining@.len() > 0 ==> exists|r: int| #[trigger]
                old(self).may_take(r) && final(self).remaining@ == old(self).recounted().remove(r)
                    && (!done ==> exists|p: int| #[trigger]
                    final(self).decided(
                        old(self),
                        final(map),
                        old(map),
                        old(self).remaining@[r].0 as int,
                        p,
                    ) && (old(self).listed_count(r) > 0 ==> old(self).listed_candidates(
                        r,
                    ).contains(p as usize))),
    {
        if self.remaining.len() == 0 {
            return true;
        }
        let ghost before = *self;
        proof {
            assert(self.chunks_x * self.chunks_y <= MAX_DIMENSION * MAX_DIMENSION)
                by (nonlinear_arith)
                requires
                    0 <= self.chunks_x <= MAX_DIMENSION,
                    0 <= self.chunks_y <= MAX_DIMENSION,
            ;
        }
        let best = self.recount();
        let ghost counted = *self;
        proof {
            self.lemma_same_decisions(&before, map);
        }
        let r_idx: usize = match best {
            Some(b) => b,
            None => (rng.roll_dice(1, self.remaining.len() as i32) - 1) as usize,
        };
        let chunk_idx = self.remaining[r_idx].0;
        let (chunk_x, chunk_y) = self.chunk_xy(chunk_idx);
        let neighbors = self.remaining[r_idx].1;
        proof {
            assert(counted.remaining@ =~= before.recounted());
            assert forall|k: int| 0 <= k < before.remaining@.len() implies #[trigger]
                before.listed_count(k) == counted.remaining@[k].1 by {}
            if best is Some {
                assert(before.takes(r_idx as int));
                assert forall|r: int| #[trigger] before.takes(r) implies r == r_idx by {
                    before.lemma_takes_one(r, r_idx as int);
                }
            } else {
                assert forall|r: int| !#[trigger] before.takes(r) by {
                    if 0 <= r < before.remaining@.len() {
                        assert(before.listed_count(r) == counted.remaining@[r].1);
                    }
                }
            }
            assert(before.may_take(r_idx as int));
            counted.lemma_same_survivors(
                &before,
                chunk_x as int,
                chunk_y as int,
                counted.first_option(chunk_x as int, chunk_y as int).len() as int,
            );
            assert(counted.spec_candidates(chunk_x as int, chunk_y as int)
                == before.listed_candidates(r_idx as int));
            assert(counted.is_remaining(chunk_idx as int));
            assert forall|i: int|
                0 <= i < before.chunks@.len() && (
                #[trigger] before.chunks@[i]) is None implies before.spec_count_neighbors(
                i % (before.chunks_x as int),
                i / (before.chunks_x as int),
            ) <= before.spec_count_neighbors(chunk_x as int, chunk_y as int) by {
                assert(counted.is_remaining(i));
                let k = choose|k: int|
                    0 <= k < counted.remaining@.len() && counted.remaining@[k].0 == i;
                assert(counted.remaining@[k].1 <= counted.remaining@[r_idx as int].1);
            }
        }
        if neighbors == 0 {
            let new_chunk_idx = (rng.roll_dice(1, self.constraints.len() as i32) - 1) as usize;
            proof {
                lemma_cell_index(
                    self.chunks_x as int,
                    self.chunks_y as int,
                    chunk_x as int,
                    chunk_y as int,
                );
            }
            self.place(map, r_idx, new_chunk_idx);
            proof {
                assert(self.decided(
                    &before,
                    map,
                    old(map),
                    chunk_idx as int,
                    new_chunk_idx as int,
                ));
                assert(before.listed_count(r_idx as int) == 0);
                assert forall|r: int| !#[trigger] before.takes(r) by {}
            }
            false
        } else {
            let possible_options = self.candidates(chunk_x, chunk_y);
            if possible_options.len() == 0 {
                self.give_up(r_idx);
                proof {
                    self.lemma_same_decisions(&counted, map);
                    assert(before.takes(r_idx as int) && before.listed_candidates(
                        r_idx as int,
                    ).len() == 0);
                }
                true
            } else {
                let pick: usize = if possible_options.len() == 1 {
                    0
                } else {
                    (rng.roll_dice(1, possible_options.len() as i32) - 1) as usize
                };
                let new_chunk_idx = possible_options[pick];
                self.place(map, r_idx, new_chunk_idx);
                proof {
                    assert(self.decided(
                        &before,
                        map,
                        old(map),
                        chunk_idx as int,
                        new_chunk_idx as int,
                    ));
                    assert(possible_options@[pick as int] == new_chunk_idx);
                    assert(before.listed_candidates(r_idx as int).contains(new_chunk_idx));
                    assert(best is Some);
                }
                false
            }
        }
    }

    /// Two solvers with the same decisions agree on whether they are free
    /// of conflict and on what a map is to show.
    pub proof fn lemma_same_decisions(&self, other: &Solver<'a>, map: &TileMap)
        requires
            self.constraints == other.constraints,
            self.chunk_size == other.chunk_size,
            self.chunks == other.chunks,
            self.chunks_x == other.chunks_x,
            self.chunks_y == other.chunks_y,
        ensures
            self.conflict_free() == other.conflict_free(),
            self.rendered(map) == other.rendered(map),
    {
        assert forall|x: int, y: int| #[trigger]
            self.resolved_at(x, y) == other.resolved_at(x, y) by {}
        assert forall|x: int, y: int| #[trigger]
            self.pattern_at(x, y) == other.pattern_at(x, y) by {}
        assert forall|i: int| #[trigger]
            self.expected_tile(map.width as int, i)
                == other.expected_tile(map.width as int, i) by {}
        assert forall|a: int, side: Direction, b: int| #[trigger]
            self.lets(a, side, b) == other.lets(a, side, b) by {}
        if self.conflict_free() {
            assert forall|x: int, y: int| #[trigger] other.resolved_at(x, y) implies {
                &&& other.resolved_at(x + 1, y) ==> {
                    ||| other.lets(other.pattern_at(x, y), Direction::East,
                        other.pattern_at(x + 1, y))
                    ||| other.lets(other.pattern_at(x + 1, y), Direction::West,
                        other.pattern_at(x, y))
                }
                &&& other.resolved_at(x, y + 1) ==> {
                    ||| other.lets(other.pattern_at(x, y), Direction::South, other.pattern_at(x,
                        y + 1))
                    ||| other.lets(other.pattern_at(x, y + 1), Direction::North,
                        other.pattern_at(x, y))
                }
            } by {
                assert(self.resolved_at(x, y));
            }
        }
        if other.conflict_free() {
            assert forall|x: int, y: int| #[trigger] self.resolved_at(x, y) implies {
                &&& self.resolved_at(x + 1, y) ==> {
                    ||| self.lets(self.pattern_at(x, y), Direction::East, self.pattern_at(x + 1, y))
                    ||| self.lets(self.pattern_at(x + 1, y), Direction::West, self.pattern_at(x, y))
                }
                &&& self.resolved_at(x, y + 1) ==> {
                    ||| self.lets(self.pattern_at(x, y), Direction::South, self.pattern_at(x,
                        y + 1))
                    ||| self.lets(self.pattern_at(x, y + 1), Direction::North, self.pattern_at(x,
                        y))
                }
            } by {
                assert(other.resolved_at(x, y));
            }
        }
    }

    /// Takes the `r_idx`-th undecided region off the list without
    /// deciding it: nothing fits there, and the solve has failed.
    pub fn give_up(&mut self, r_idx: usize)
        requires
            old(self).wf(),
            r_idx < old(self).remaining@.len(),
        ensures
            final(self).wf(),
            !final(self).possible,
            final(self).remaining@ == old(self).remaining@.remove(r_idx as int),
            final(self).constraints == old(self).constraints,
            final(self).chunk_size == old(self).chunk_size,
            final(self).chunks == old(self).chunks,
            final(self).chunks_x == old(self).chunks_x,
            final(self).chunks_y == old(self).chunks_y,
    {
        let ghost before = *self;
        self.remaining.remove(r_idx);
        self.possible = false;
        proof {
            assert forall|r: int, s: int| 0
                <= r < s < self.remaining@.len() implies self.remaining@[r].0
                != self.remaining@[s].0 by {
                let r0 = if r < r_idx {
                    r
                } else {
                    r + 1
                };
                let s0 = if s < r_idx {
                    s
                } else {
                    s + 1
                };
                assert(self.remaining@[r] == before.remaining@[r0]);
                assert(self.remaining@[s] == before.remaining@[s0]);
            }
            assert forall|r: int| 0 <= r < self.remaining@.len() implies (
            #[trigger] self.remaining@[r]).0 < self.chunks@.len() by {
                let r0 = if r < r_idx {
                    r
                } else {
                    r + 1
                };
                assert(self.remaining@[r] == before.remaining@[r0]);
            }
        }
    }
}

/// Whether `list` holds `p`.
pub fn holds(list: &Vec<usize>, p: usize) -> (found: bool)
    ensures
        found == list@.contains(p),
{
    let mut i: usize = 0;
    while i < list.len()
        invariant
            i <= list@.len(),
            forall|j: int| 0 <= j < i ==> list@[j] != p,
        decreases list@.len() - i,
    {
        if list[i] == p {
            return true;
        }
        i += 1;
    }
    false
}

} // verus!
