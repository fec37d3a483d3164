use vstd::prelude::*;

verus! {

pub const MAPWIDTH: usize = 80;

pub const MAPHEIGHT: usize = 43;

pub const MAPCOUNT: usize = MAPHEIGHT * MAPWIDTH;

/// The largest width or height a grid may have, so that every cell index
/// and every squared distance on it fits the integer types used here.
pub const MAX_DIMENSION: i32 = 16384;

/// What a cell of the grid holds.
#[derive(PartialEq, Eq, Clone, Copy, Debug, Hash, Structural)]
pub enum TileType {
    Wall,
    Floor,
    DownStairs,
}

/// The level: a row-major grid of tiles with its per-cell flags.
///
/// `revealed_tiles`: whether the cell has ever been in the field of view.
/// `visible_tiles`: whether the cell is in the field of view now.
/// `blocked`: whether the cell can not be entered.
pub struct TileMap {
    pub tiles: Vec<TileType>,
    pub width: i32,
    pub height: i32,
    pub revealed_tiles: Vec<bool>,
    pub visible_tiles: Vec<bool>,
    pub blocked: Vec<bool>,
    pub depth: i32,
}

/// The number of cells of a `width` by `height` grid.
pub open spec fn cell_count(width: int, height: int) -> int {
    width * height
}

/// The row-major index of column `x` in row `y`.
pub open spec fn cell_index(width: int, x: int, y: int) -> int {
    y * width + x
}

/// The column of the cell with index `i`.
pub open spec fn col_of(width: int, i: int) -> int {
    i % width
}

/// The row of the cell with index `i`.
pub open spec fn row_of(width: int, i: int) -> int {
    i / width
}

/// Whether `(x, y)` lies on the outermost ring of the grid.
pub open spec fn on_border(width: int, height: int, x: int, y: int) -> bool {
    x == 0 || y == 0 || x == width - 1 || y == height - 1
}

/// Whether `(x, y)` lies inside the grid and off its outermost ring.
pub open spec fn is_interior(width: int, height: int, x: int, y: int) -> bool {
    1 <= x < width - 1 && 1 <= y < height - 1
}

/// Whether every tile on the outermost ring of the grid is a wall.
pub open spec fn closed_border(tiles: Seq<TileType>, width: int, height: int) -> bool {
    forall|i: int|
        0 <= i < tiles.len() && on_border(width, height, col_of(width, i), row_of(width, i))
            ==> #[trigger] tiles[i] == TileType::Wall
}

/// Whether `after` is `before` with exactly the cells of `region` turned
/// into `kind`.
pub open spec fn overlaid(
    before: Seq<TileType>,
    after: Seq<TileType>,
    width: int,
    region: spec_fn(int, int) -> bool,
    kind: TileType,
) -> bool {
    &&& after.len() == before.len()
    &&& forall|i: int|
        0 <= i < before.len() ==> #[trigger] after[i] == if region(
            col_of(width, i),
            row_of(width, i),
        ) {
            kind
        } else {
            before[i]
        }
}

/// Whether `after` is `before` with each cell of `region` set to what
/// `value` gives for it.
pub open spec fn replaced(
    before: Seq<TileType>,
    after: Seq<TileType>,
    width: int,
    region: spec_fn(int, int) -> bool,
    value: spec_fn(int, int) -> TileType,
) -> bool {
    &&& after.len() == before.len()
    &&& forall|i: int|
        0 <= i < before.len() ==> #[trigger] after[i] == if region(
            col_of(width, i),
            row_of(width, i),
        ) {
            value(col_of(width, i), row_of(width, i))
        } else {
            before[i]
        }
}

/// Whether `after` is `before` but for cells off the border that became
/// floor.
pub open spec fn dug(before: Seq<TileType>, after: Seq<TileType>, width: int, height: int) -> bool {
    &&& after.len() == before.len()
    &&& forall|i: int|
        0 <= i < before.len() ==> #[trigger] after[i] == before[i] || (after[i] == TileType::Floor
            && is_interior(width, height, col_of(width, i), row_of(width, i)))
}

/// How many of the first `n` tiles of `tiles` are `kind`.
pub open spec fn count_of(tiles: Seq<TileType>, kind: TileType, n: int) -> nat
    decreases n,
{
    if n <= 0 {
        0
    } else {
        count_of(tiles, kind, n - 1) + if tiles[n - 1] == kind {
            1nat
        } else {
            0nat
        }
    }
}

/// A cell of a grid has an index below the number of cells, and the index
/// determines the cell.
pub proof fn lemma_cell_index(width: int, height: int, x: int, y: int)
    requires
        0 <= x < width,
        0 <= y < height,
    ensures
        0 <= cell_index(width, x, y) < cell_count(width, height),
        cell_index(width, x, y) % width == x,
        cell_index(width, x, y) / width == y,
{
    assert(y * width + width <= height * width) by (nonlinear_arith)
        requires
            0 <= y < height,
            0 < width,
    ;
    assert(0 <= y * width) by (nonlinear_arith)
        requires
            0 <= y,
            0 < width,
    ;
    assert(height * width == width * height) by (nonlinear_arith);
    vstd::arithmetic::div_mod::lemma_fundamental_div_mod_converse(y * width + x, width, y, x);
}

/// An index below the number of cells names a cell of the grid.
pub proof fn lemma_index_cell(width: int, height: int, idx: int)
    requires
        0 < width,
        0 < height,
        0 <= idx < cell_count(width, height),
    ensures
        0 <= idx % width < width,
        0 <= idx / width < height,
        cell_index(width, idx % width, idx / width) == idx,
{
    vstd::arithmetic::div_mod::lemma_fundamental_div_mod(idx, width);
    vstd::arithmetic::div_mod::lemma_mod_bound(idx, width);
    let q = idx / width;
    assert(width * q == q * width) by (nonlinear_arith);
    assert(q < height) by (nonlinear_arith)
        requires
            0 < width,
            q * width <= idx,
            idx < width * height,
    ;
    assert(0 <= q) by (nonlinear_arith)
        requires
            0 < width,
            0 <= idx,
            q * width + width > idx,
    ;
}

/// Among the indices of a grid, only that of `(x, y)` has column `x` and
/// row `y`.
pub proof fn lemma_cell_unique(width: int, height: int, x: int, y: int)
    requires
        0 <= x < width,
        0 <= y < height,
    ensures
        forall|i: int|
            0 <= i < cell_count(width, height) ==> ((#[trigger] col_of(width, i) == x && row_of(
                width,
                i,
            ) == y) <==> i == cell_index(width, x, y)),
        0 <= cell_index(width, x, y) < cell_count(width, height),
        col_of(width, cell_index(width, x, y)) == x,
        row_of(width, cell_index(width, x, y)) == y,
{
    lemma_cell_index(width, height, x, y);
    assert forall|i: int| 0 <= i < cell_count(width, height) implies ((#[trigger] col_of(width, i)
        == x && row_of(width, i) == y) <==> i == cell_index(width, x, y)) by {
        lemma_index_cell(width, height, i);
    }
}

/// Turning cells off the border into floor is digging.
pub proof fn lemma_overlaid_dug(
    before: Seq<TileType>,
    after: Seq<TileType>,
    width: int,
    height: int,
    region: spec_fn(int, int) -> bool,
)
    requires
        overlaid(before, after, width, region, TileType::Floor),
        forall|x: int, y: int| #[trigger] region(x, y) ==> is_interior(width, height, x, y),
    ensures
        dug(before, after, width, height),
{
}

/// Digging leaves a closed border closed.
pub proof fn lemma_dug_keeps_border(
    before: Seq<TileType>,
    after: Seq<TileType>,
    width: int,
    height: int,
)
    requires
        dug(before, after, width, height),
        closed_border(before, width, height),
    ensures
        closed_border(after, width, height),
{
    assert forall|i: int|
        0 <= i < after.len() && on_border(
            width,
            height,
            col_of(width, i),
            row_of(width, i),
        ) implies #[trigger] after[i] == TileType::Wall by {
        assert(after[i] == before[i] || after[i] == TileType::Floor);
        assert(before[i] == TileType::Wall);
    }
}

/// Digging twice is digging.
pub proof fn lemma_dug_twice(
    first: Seq<TileType>,
    second: Seq<TileType>,
    third: Seq<TileType>,
    width: int,
    height: int,
)
    requires
        dug(first, second, width, height),
        dug(second, third, width, height),
    ensures
        dug(first, third, width, height),
{
    assert forall|i: int| 0 <= i < first.len() implies #[trigger] third[i] == first[i] || (third[i]
        == TileType::Floor && is_interior(width, height, col_of(width, i), row_of(width, i))) by {
        assert(second[i] == first[i] || second[i] == TileType::Floor);
        assert(third[i] == second[i] || third[i] == TileType::Floor);
    }
}

impl TileMap {
    /// The grid's invariant: positive bounded dimensions, and one entry per
    /// cell in each of the four vectors.
    pub open spec fn wf(&self) -> bool {
        &&& 1 <= self.width <= MAX_DIMENSION
        &&& 1 <= self.height <= MAX_DIMENSION
        &&& self.tiles@.len() == cell_count(self.width as int, self.height as int)
        &&& self.revealed_tiles@.len() == self.tiles@.len()
        &&& self.visible_tiles@.len() == self.tiles@.len()
        &&& self.blocked@.len() == self.tiles@.len()
    }

    /// Whether both grids have the same width, height and depth.
    pub open spec fn same_shape(&self, other: &TileMap) -> bool {
        &&& self.width == other.width
        &&& self.height == other.height
        &&& self.depth == other.depth
    }

    /// Whether every cell of the outermost ring is a wall.
    pub open spec fn border_closed(&self) -> bool {
        closed_border(self.tiles@, self.width as int, self.height as int)
    }

    /// Whether `self` differs from `old` in its tiles at most.
    pub open spec fn same_but_tiles(&self, old: &TileMap) -> bool {
        &&& self.same_shape(old)
        &&& self.tiles@.len() == old.tiles@.len()
        &&& self.revealed_tiles@ == old.revealed_tiles@
        &&& self.visible_tiles@ == old.visible_tiles@
        &&& self.blocked@ == old.blocked@
    }

    /// Whether a step onto `(x, y)` is allowed: the cell is off the first
    /// row and column, inside the grid, and not blocked.
    pub open spec fn spec_exit_valid(&self, x: int, y: int) -> bool {
        &&& 1 <= x <= self.width - 1
        &&& 1 <= y <= self.height - 1
        &&& !self.blocked@[cell_index(self.width as int, x, y)]
    }

    /// A grid of `width` by `height` walls at depth `new_depth`, nothing
    /// revealed, visible or blocked.
    pub fn with_size(width: i32, height: i32, new_depth: i32) -> (map: TileMap)
        requires
            1 <= width <= MAX_DIMENSION,
            1 <= height <= MAX_DIMENSION,
        ensures
            map.wf(),
            map.width == width,
            map.height == height,
            map.depth == new_depth,
            forall|i: int| 0 <= i < map.tiles@.len() ==> map.tiles@[i] == TileType::Wall,
            forall|i: int| 0 <= i < map.tiles@.len() ==> !map.revealed_tiles@[i],
            forall|i: int| 0 <= i < map.tiles@.len() ==> !map.visible_tiles@[i],
            forall|i: int| 0 <= i < map.tiles@.len() ==> !map.blocked@[i],
    {
        assert(width * height <= MAX_DIMENSION * MAX_DIMENSION) by (nonlinear_arith)
            requires
                1 <= width <= MAX_DIMENSION,
                1 <= height <= MAX_DIMENSION,
        ;
        let count: usize = (width as usize) * (height as usize);
        TileMap {
            tiles: vec![TileType::Wall; count],
            width,
            height,
            revealed_tiles: vec![false; count],
            visible_tiles: vec![false; count],
            blocked: vec![false; count],
            depth: new_depth,
        }
    }

    /// Generates a new, empty map of the standard size.
    pub fn new(new_depth: i32) -> (map: TileMap)
        ensures
            map.wf(),
            map.width == MAPWIDTH,
            map.height == MAPHEIGHT,
            map.depth == new_depth,
            forall|i: int| 0 <= i < map.tiles@.len() ==> map.tiles@[i] == TileType::Wall,
            forall|i: int| 0 <= i < map.tiles@.len() ==> !map.revealed_tiles@[i],
            forall|i: int| 0 <= i < map.tiles@.len() ==> !map.visible_tiles@[i],
            forall|i: int| 0 <= i < map.tiles@.len() ==> !map.blocked@[i],
    {
        TileMap::with_size(80, 43, new_depth)
    }

    /// Returns the (x, y) coordinates of the map's center.
    pub fn center(&self) -> (c: (i32, i32))
        requires
            self.wf(),
        ensures
            c.0 == self.width / 2,
            c.1 == self.height / 2,
    {
        (self.width / 2, self.height / 2)
    }

    /// Checks that a move by `(d_x, d_y)` from `(x, y)` ends off the border.
    pub fn in_bounds(&self, x: i32, d_x: i32, y: i32, d_y: i32) -> (b: bool)
        ensures
            b == is_interior(self.width as int, self.height as int, x + d_x, y + d_y),
    {
        let nx: i64 = x as i64 + d_x as i64;
        let ny: i64 = y as i64 + d_y as i64;
        nx >= 1 && nx < self.width as i64 - 1 && ny >= 1 && ny < self.height as i64 - 1
    }

    /// Gets the index into `tiles` of the cell at `(x, y)`.
    pub fn xy_idx(&self, x: i32, y: i32) -> (idx: usize)
        requires
            self.wf(),
            0 <= x < self.width,
            0 <= y < self.height,
        ensures
            idx == cell_index(self.width as int, x as int, y as int),
            idx < self.tiles@.len(),
    {
        proof {
            lemma_cell_index(self.width as int, self.height as int, x as int, y as int);
            assert(0 <= y * self.width <= MAX_DIMENSION * MAX_DIMENSION) by (nonlinear_arith)
                requires
                    0 <= y < MAX_DIMENSION,
                    1 <= self.width <= MAX_DIMENSION,
            ;
        }
        (y as usize * self.width as usize) + x as usize
    }

    /// Determines if a cell can be entered (is not blocked).
    pub fn is_exit_valid(&self, x: i32, y: i32) -> (b: bool)
        requires
            self.wf(),
        ensures
            b == self.spec_exit_valid(x as int, y as int),
    {
        if x < 1 || x > self.width - 1 || y < 1 || y > self.height - 1 {
            return false;
        }
        let idx = self.xy_idx(x, y);
        !self.blocked[idx]
    }

    /// Sets all wall tiles to blocking tiles: walls can't be walked through.
    pub fn populate_blocked(&mut self)
        requires
            old(self).wf(),
        ensures
            final(self).wf(),
            final(self).same_shape(old(self)),
            final(self).tiles@ == old(self).tiles@,
            final(self).revealed_tiles@ == old(self).revealed_tiles@,
            final(self).visible_tiles@ == old(self).visible_tiles@,
            forall|i: int|
                0 <= i < final(self).tiles@.len() ==> final(self).blocked@[i] == (old(
                    self,
                ).tiles@[i] == TileType::Wall),
    {
        let n: usize = self.tiles.len();
        let mut i: usize = 0;
        while i < n
            invariant
                i <= n,
                n == self.tiles@.len(),
                self.wf(),
                self.same_shape(old(self)),
                self.tiles@ == old(self).tiles@,
                self.revealed_tiles@ == old(self).revealed_tiles@,
                self.visible_tiles@ == old(self).visible_tiles@,
                forall|j: int|
                    0 <= j < i ==> self.blocked@[j] == (self.tiles@[j] == TileType::Wall),
            decreases n - i,
        {
            let is_wall = self.tiles[i] == TileType::Wall;
            self.blocked[i] = is_wall;
            i += 1;
        }
    }

    /// The cells off the border, row by row, each as `(x, y)`.
    pub fn iter_xy(&self) -> (cells: Vec<(i32, i32)>)
        requires
            self.wf(),
        ensures
            self.width >= 2 && self.height >= 2 ==> cells@.len() == (self.width - 2) * (self.height
                - 2),
            self.width < 2 || self.height < 2 ==> cells@.len() == 0,
            forall|k: int|
                0 <= k < cells@.len() ==> #[trigger] cells@[k] == (
                    (1 + k % (self.width - 2)) as i32,
                    (1 + k / (self.width - 2)) as i32,
                ),
    {
        let mut cells: Vec<(i32, i32)> = Vec::new();
        if self.width < 2 || self.height < 2 {
            return cells;
        }
        let inner: i32 = self.width - 2;
        let mut y: i32 = 1;
        while y < self.height - 1
            invariant
                self.wf(),
                self.width >= 2,
                self.height >= 2,
                inner == self.width - 2,
                1 <= y <= self.height - 1,
                cells@.len() == (y - 1) * inner,
                forall|k: int|
                    0 <= k < cells@.len() ==> #[trigger] cells@[k] == (
                        (1 + k % (inner as int)) as i32,
                        (1 + k / (inner as int)) as i32,
                    ),
            decreases self.height - y,
        {
            let mut x: i32 = 1;
            while x < self.width - 1
                invariant
                    self.wf(),
                    self.width >= 2,
                    inner == self.width - 2,
                    1 <= y < self.height - 1,
                    1 <= x <= self.width - 1,
                    cells@.len() == (y - 1) * inner + (x - 1),
                    forall|k: int|
                        0 <= k < cells@.len() ==> #[trigger] cells@[k] == (
                            (1 + k % (inner as int)) as i32,
                            (1 + k / (inner as int)) as i32,
                        ),
                decreases self.width - x,
            {
                proof {
                    let k = (y - 1) * inner + (x - 1);
                    vstd::arithmetic::div_mod::lemma_fundamental_div_mod_converse(
                        k,
                        inner as int,
                        (y - 1) as int,
                        (x - 1) as int,
                    );
                }
                cells.push((x, y));
                x += 1;
            }
            proof {
                assert((y - 1) * inner + inner == (y + 1 - 1) * inner) by (nonlinear_arith);
            }
            y += 1;
        }
        proof {
            assert((self.height - 2) * inner == (self.width - 2) * (self.height - 2))
                by (nonlinear_arith)
                requires
                    inner == self.width - 2,
            ;
        }
        cells
    }

    /// A copy of the map on which every cell counts as revealed.
    pub fn revealed_copy(&self) -> (copy: TileMap)
        requires
            self.wf(),
        ensures
            copy.wf(),
            copy.same_shape(self),
            copy.tiles@ == self.tiles@,
            copy.visible_tiles@ == self.visible_tiles@,
            copy.blocked@ == self.blocked@,
            forall|i: int| 0 <= i < copy.revealed_tiles@.len() ==> copy.revealed_tiles@[i],
    {
        let copy = TileMap {
            tiles: self.tiles.clone(),
            width: self.width,
            height: self.height,
            revealed_tiles: vec![true; self.tiles.len()],
            visible_tiles: self.visible_tiles.clone(),
            blocked: self.blocked.clone(),
            depth: self.depth,
        };
        proof {
            assert(copy.tiles@ =~= self.tiles@);
            assert(copy.visible_tiles@ =~= self.visible_tiles@);
            assert(copy.blocked@ =~= self.blocked@);
        }
        copy
    }

    /// The number of floor tiles on the map.
    pub fn count_floor_tiles(&self) -> (n: usize)
        ensures
            n == count_of(self.tiles@, TileType::Floor, self.tiles@.len() as int),
    {
        let mut n: usize = 0;
        let mut i: usize = 0;
        while i < self.tiles.len()
            invariant
                i <= self.tiles@.len(),
                n == count_of(self.tiles@, TileType::Floor, i as int),
                n <= i,
            decreases self.tiles@.len() - i,
        {
            if self.tiles[i] == TileType::Floor {
                n += 1;
            }
            i += 1;
        }
        n
    }
}

} // verus!
