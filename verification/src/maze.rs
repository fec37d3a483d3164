use crate::build_data::{BuildData, BuildError};
use crate::chain::InitialMapBuilder;
use crate::tile_map::{
    cell_index, col_of, lemma_cell_index, lemma_cell_unique, lemma_index_cell, row_of, TileMap,
    TileType, MAX_DIMENSION,
};
use rltk::RandomNumberGenerator;
use vstd::prelude::*;

verus! {

pub const TOP: usize = 0;

pub const RIGHT: usize = 1;

pub const BOTTOM: usize = 2;

pub const LEFT: usize = 3;

pub struct MazeBuilder {}

/// Single cell of a [`Grid`]: where it is, which of its four walls stand,
/// and whether the walk has been there.
#[derive(Clone, Copy)]
pub struct Cell {
    pub row: i32,
    pub col: i32,
    pub walls: [bool; 4],
    pub visited: bool,
}

impl Cell {
    /// Makes a new, unvisited cell with walls in each direction.
    pub fn new(row: i32, col: i32) -> (cell: Cell)
        ensures
            cell.row == row,
            cell.col == col,
            cell.walls@ == seq![true, true, true, true],
            !cell.visited,
    {
        let cell = Cell { row, col, walls: [true, true, true, true], visited: false };
        proof {
            assert(cell.walls@ =~= seq![true, true, true, true]);
        }
        cell
    }

    /// The walls of `self` after the wall towards a cell at offset `(x,
    /// y)`, columns and rows, came down.
    pub open spec fn walls_without(self, x: int, y: int) -> Seq<bool> {
        if x == 1 {
            self.walls@.update(LEFT as int, false)
        } else if x == -1 {
            self.walls@.update(RIGHT as int, false)
        } else if y == 1 {
            self.walls@.update(TOP as int, false)
        } else if y == -1 {
            self.walls@.update(BOTTOM as int, false)
        } else {
            self.walls@
        }
    }

    /// Takes down the wall between `self` and `next`, where the two are
    /// neighbours in a row or a column.
    pub fn remove_walls(&mut self, next: &mut Cell)
        requires
            -0x4000_0000 < old(self).col < 0x4000_0000,
            -0x4000_0000 < old(self).row < 0x4000_0000,
            -0x4000_0000 < old(next).col < 0x4000_0000,
            -0x4000_0000 < old(next).row < 0x4000_0000,
        ensures
            final(self).row == old(self).row,
            final(self).col == old(self).col,
            final(self).visited == old(self).visited,
            final(next).row == old(next).row,
            final(next).col == old(next).col,
            final(next).visited == old(next).visited,
            final(self).walls@ == old(self).walls_without(
                old(self).col - old(next).col,
                old(self).row - old(next).row,
            ),
            final(next).walls@ == old(next).walls_without(
                old(next).col - old(self).col,
                if old(self).col - old(next).col == 1 || old(self).col - old(next).col == -1 {
                    0
                } else {
                    old(next).row - old(self).row
                },
            ),
    {
        let x = self.col - next.col;
        let y = self.row - next.row;
        if x == 1 {
            self.walls[LEFT] = false;
            next.walls[RIGHT] = false;
        } else if x == -1 {
            self.walls[RIGHT] = false;
            next.walls[LEFT] = false;
        } else if y == 1 {
            self.walls[TOP] = false;
            next.walls[BOTTOM] = false;
        } else if y == -1 {
            self.walls[BOTTOM] = false;
            next.walls[TOP] = false;
        }
    }
}

/// The cells of the maze, half as many each way as the map has tiles, and
/// the state of the walk that takes down walls between them.
pub struct Grid {
    pub width: i32,
    pub height: i32,
    pub cells: Vec<Cell>,
    pub backtrace: Vec<usize>,
    pub current: usize,
}

/// How many of the first `n` cells the walk has not been to.
pub open spec fn count_unvisited(cells: Seq<Cell>, n: int) -> nat
    decreases n,
{
    if n <= 0 {
        0
    } else {
        count_unvisited(cells, n - 1) + if cells[n - 1].visited {
            0nat
        } else {
            1nat
        }
    }
}

/// Whether the rendering of `cell` makes the tile `(x, y)` floor: the tile
/// of the cell itself, at twice the cell's place plus two, and the tile
/// next to it on each side where the cell's wall is down.
pub open spec fn carves(cell: Cell, x: int, y: int) -> bool {
    let cx = (cell.col + 1) * 2;
    let cy = (cell.row + 1) * 2;
    ||| (x == cx && y == cy)
    ||| (!cell.walls@[TOP as int] && x == cx && y == cy - 1)
    ||| (!cell.walls@[RIGHT as int] && x == cx + 1 && y == cy)
    ||| (!cell.walls@[BOTTOM as int] && x == cx && y == cy + 1)
    ||| (!cell.walls@[LEFT as int] && x == cx - 1 && y == cy)
}

/// Whether the rendering of one of the first `n` cells makes the tile `(x,
/// y)` floor.
pub open spec fn maze_floor(cells: Seq<Cell>, n: int, x: int, y: int) -> bool {
    exists|k: int| 0 <= k < n && carves(#[trigger] cells[k], x, y)
}

/// Visiting a cell that was not visited leaves one cell less to visit;
/// visiting one that was leaves as many.
pub proof fn lemma_visit(cells: Seq<Cell>, after: Seq<Cell>, k: int, n: int)
    requires
        0 <= k < cells.len(),
        0 <= n <= cells.len(),
        after.len() == cells.len(),
        after[k].visited,
        forall|i: int| 0 <= i < cells.len() && i != k ==> after[i].visited == cells[i].visited,
    ensures
        count_unvisited(after, n) == count_unvisited(cells, n) - if k < n && !cells[k].visited {
            1int
        } else {
            0int
        },
    decreases n,
{
    if n > 0 {
        lemma_visit(cells, after, k, n - 1);
    }
}

/// One for a wall that is down, zero for one that stands.
pub open spec fn one_if_down(cell: Cell, side: usize) -> nat {
    if cell.walls@[side as int] {
        0
    } else {
        1
    }
}

/// How many links the first `n` cells have to the cell on their right and
/// to the cell below them: walls that are down.
pub open spec fn count_links(cells: Seq<Cell>, n: int) -> nat
    decreases n,
{
    if n <= 0 {
        0
    } else {
        count_links(cells, n - 1) + one_if_down(cells[n - 1], RIGHT) + one_if_down(
            cells[n - 1],
            BOTTOM,
        )
    }
}

/// Whether all four walls of the cell stand.
pub open spec fn walled_in(cell: Cell) -> bool {
    cell.walls@[TOP as int] && cell.walls@[RIGHT as int] && cell.walls@[BOTTOM as int]
        && cell.walls@[LEFT as int]
}

/// A change of the walls of cell `k` changes the number of links by what
/// it changes on the right of that cell and below it.
pub proof fn lemma_links_update(cells: Seq<Cell>, after: Seq<Cell>, k: int, n: int)
    requires
        0 <= k < cells.len(),
        0 <= n <= cells.len(),
        after.len() == cells.len(),
        forall|i: int| 0 <= i < cells.len() && i != k ==> after[i].walls@ == cells[i].walls@,
    ensures
        count_links(after, n) + if k < n {
            one_if_down(cells[k], RIGHT) + one_if_down(cells[k], BOTTOM)
        } else {
            0
        } == count_links(cells, n) + if k < n {
            one_if_down(after[k], RIGHT) + one_if_down(after[k], BOTTOM)
        } else {
            0
        },
    decreases n,
{
    if n > 0 {
        lemma_links_update(cells, after, k, n - 1);
    }
}

/// Where every cell is visited, none is left to visit.
pub proof fn lemma_none_unvisited(cells: Seq<Cell>, n: int)
    requires
        0 <= n <= cells.len(),
        forall|k: int| 0 <= k < cells.len() ==> (#[trigger] cells[k]).visited,
    ensures
        count_unvisited(cells, n) == 0,
    decreases n,
{
    if n > 0 {
        lemma_none_unvisited(cells, n - 1);
    }
}

/// Where no cell is visited and all walls stand, all cells are left to
/// visit and there is no link.
pub proof fn lemma_untouched_counts(cells: Seq<Cell>, n: int)
    requires
        0 <= n <= cells.len(),
        forall|k: int|
            0 <= k < cells.len() ==> !(#[trigger] cells[k]).visited && walled_in(cells[k]),
    ensures
        count_unvisited(cells, n) == n,
        count_links(cells, n) == 0,
    decreases n,
{
    if n > 0 {
        lemma_untouched_counts(cells, n - 1);
    }
}

impl Grid {
    /// Whether the walk has been to no cell, every wall stands, and the
    /// stack is empty.
    pub open spec fn untouched(&self) -> bool {
        &&& self.backtrace@.len() == 0
        &&& forall|k: int|
            0 <= k < self.cells@.len() ==> !(#[trigger] self.cells@[k]).visited && walled_in(
                self.cells@[k],
            )
    }

    /// Whether the walls of cell `k` agree with those of its neighbours:
    /// where a wall of the cell is down, it has a neighbour on that side,
    /// and the neighbour's wall towards the cell is down as well.
    pub open spec fn agrees_at(&self, k: int) -> bool {
        let w = self.width as int;
        let cell = self.cells@[k];
        &&& !cell.walls@[RIGHT as int] ==> col_of(w, k) + 1 < w && k + 1 < self.cells@.len()
            && !self.cells@[k + 1].walls@[LEFT as int]
        &&& !cell.walls@[LEFT as int] ==> col_of(w, k) >= 1 && k - 1 >= 0 && !self.cells@[k
            - 1].walls@[RIGHT as int]
        &&& !cell.walls@[BOTTOM as int] ==> k + w < self.cells@.len() && !self.cells@[k
            + w].walls@[TOP as int]
        &&& !cell.walls@[TOP as int] ==> k - w >= 0 && !self.cells@[k - w].walls@[BOTTOM as int]
    }

    /// Whether the walls agree from both sides, all over the grid.
    pub open spec fn walls_agree(&self) -> bool {
        forall|k: int| 0 <= k < self.cells@.len() ==> #[trigger] self.agrees_at(k)
    }

    /// Whether cells `a` and `b` are neighbours in a row or a column and
    /// the wall between them is down.
    pub open spec fn linked_cells(&self, a: int, b: int) -> bool {
        let w = self.width as int;
        ||| (b == a + 1 && col_of(w, a) + 1 < w && !self.cells@[a].walls@[RIGHT as int])
        ||| (a == b + 1 && col_of(w, b) + 1 < w && !self.cells@[b].walls@[RIGHT as int])
        ||| (b == a + w && !self.cells@[a].walls@[BOTTOM as int])
        ||| (a == b + w && !self.cells@[b].walls@[BOTTOM as int])
    }

    /// Whether cell `k`, if the walk has been there and it is not `root`,
    /// is linked to its parent, a visited cell of lower rank.
    pub open spec fn hangs_at(&self, k: int, root: int, parent: Seq<int>, rank: Seq<nat>) -> bool {
        self.cells@[k].visited && k != root ==> {
            &&& 0 <= parent[k] < self.cells@.len()
            &&& self.cells@[parent[k]].visited
            &&& self.linked_cells(k, parent[k])
            &&& rank[parent[k]] < rank[k]
        }
    }

    /// Whether the visited cells hang together from `root`: each other
    /// visited cell is linked to its parent, a visited cell of lower rank,
    /// so that the links lead from every visited cell to `root`.
    pub open spec fn is_tree(&self, root: int, parent: Seq<int>, rank: Seq<nat>) -> bool {
        &&& parent.len() == self.cells@.len()
        &&& rank.len() == self.cells@.len()
        &&& 0 <= root < self.cells@.len()
        &&& forall|k: int|
            0 <= k < self.cells@.len() ==> #[trigger] self.hangs_at(k, root, parent, rank)
    }

    /// Whether the walk so far has grown a tree from `root`: the walls
    /// agree, a cell not visited has all its walls, the visited cells hang
    /// together, and there is one link less than cells visited.
    pub open spec fn growing(&self, root: int, parent: Seq<int>, rank: Seq<nat>) -> bool {
        let n = self.cells@.len() as int;
        &&& self.walls_agree()
        &&& forall|k: int|
            0 <= k < n && !(#[trigger] self.cells@[k]).visited ==> walled_in(self.cells@[k])
        &&& forall|at: int|
            0 <= at < self.backtrace@.len()
                ==> self.cells@[#[trigger] self.backtrace@[at] as int].visited
        &&& self.current == root || self.cells@[self.current as int].visited
        &&& count_links(self.cells@, n) + count_unvisited(self.cells@, n)
            + if self.cells@[self.current as int].visited {
            1int
        } else {
            0int
        } == n
        &&& self.is_tree(root, parent, rank)
    }

    /// Whether the maze is a spanning tree of its cells: the walk has been
    /// to every cell, the walls agree from both sides, the links lead from
    /// every cell to `root`, and there is one link less than there are
    /// cells.
    pub open spec fn spanning_tree(&self, root: int) -> bool {
        &&& self.all_visited()
        &&& self.walls_agree()
        &&& count_links(self.cells@, self.cells@.len() as int) + 1 == self.cells@.len()
        &&& exists|parent: Seq<int>, rank: Seq<nat>| #[trigger] self.is_tree(root, parent, rank)
    }

    /// A neighbour that the walk may step to lies beside the current cell
    /// in its row or its column, and the walk has not been there.
    pub proof fn lemma_neighbour_beside(&self, n: usize)
        requires
            self.wf(),
            self.spec_neighbors().contains(n),
        ensures
            ({
                let w = self.width as int;
                let cur = self.current as int;
                let row = row_of(w, cur);
                let col = col_of(w, cur);
                ||| (n == cur - w && 0 <= row - 1)
                ||| (n == cur + 1 && col + 1 < w)
                ||| (n == cur + w && row + 1 < self.height)
                ||| (n == cur - 1 && 0 <= col - 1)
            }),
            n < self.cells@.len(),
    {
        let w = self.width as int;
        let h = self.height as int;
        let cur = self.current as int;
        lemma_index_cell(w, h, cur);
        let row = self.cells@[cur].row as int;
        let col = self.cells@[cur].col as int;
        let l1 = self.with_neighbour(Seq::empty(), row - 1, col);
        let l2 = self.with_neighbour(l1, row, col + 1);
        let l3 = self.with_neighbour(l2, row + 1, col);
        let l4 = self.with_neighbour(l3, row, col - 1);
        assert(l4 == self.spec_neighbors());
        assert(w * h <= 8192 * 8192) by (nonlinear_arith)
            requires
                1 <= w <= 8192,
                1 <= h <= 8192,
        ;
        let i = choose|i: int| 0 <= i < l4.len() && l4[i] == n;
        if 0 <= row - 1 {
            lemma_cell_index(w, h, col, row - 1);
        }
        if row + 1 < h {
            lemma_cell_index(w, h, col, row + 1);
        }
        if 0 <= col - 1 {
            lemma_cell_index(w, h, col - 1, row);
        }
        if col + 1 < w {
            lemma_cell_index(w, h, col + 1, row);
        }
        assert((row - 1) * w + col == cur - w) by (nonlinear_arith)
            requires
                cur == row * w + col,
        ;
        assert((row + 1) * w + col == cur + w) by (nonlinear_arith)
            requires
                cur == row * w + col,
        ;
        assert(l1.len() <= l2.len() <= l3.len() <= l4.len());
        assert(forall|j: int| 0 <= j < l1.len() ==> l2[j] == l1[j]);
        assert(forall|j: int| 0 <= j < l2.len() ==> l3[j] == l2[j]);
        assert(forall|j: int| 0 <= j < l3.len() ==> l4[j] == l3[j]);
        if i < l1.len() {
            assert(self.unvisited_at(row - 1, col));
            assert(l1[i] == cell_index(w, col, row - 1) as usize);
            assert(n == l1[i]);
            assert(n == cur - w);
        } else if i < l2.len() {
            assert(self.unvisited_at(row, col + 1));
            assert(l2[i] == cell_index(w, col + 1, row) as usize);
            assert(n == l2[i]);
            assert(n == cur + 1);
        } else if i < l3.len() {
            assert(self.unvisited_at(row + 1, col));
            assert(l3[i] == cell_index(w, col, row + 1) as usize);
            assert(n == l3[i]);
            assert(n == cur + w);
        } else {
            assert(self.unvisited_at(row, col - 1));
            assert(l4[i] == cell_index(w, col - 1, row) as usize);
            assert(n == cur - 1);
        }
        assert(row == row_of(w, cur) && col == col_of(w, cur));
    }

    /// Whether `self` is `before` after a step from its current cell to
    /// the neighbour that lies `x` columns and `y` rows before it, a cell
    /// that the walk had not been to: the wall between the two is down,
    /// the neighbour is visited and current, and the cell left is on the
    /// stack.
    pub open spec fn steps_from(&self, before: &Grid, x: int, y: int) -> bool {
        let cur = before.current as int;
        let next = self.current as int;
        &&& before.wf()
        &&& self.wf()
        &&& self.width == before.width
        &&& self.height == before.height
        &&& before.cells@[cur].visited
        &&& (x == 0 && (y == 1 || y == -1)) || (y == 0 && (x == 1 || x == -1))
        &&& next == cur - x - y * before.width
        &&& x == 1 ==> col_of(before.width as int, cur) >= 1
        &&& x == -1 ==> col_of(before.width as int, cur) + 1 < before.width
        &&& y == 1 ==> row_of(before.width as int, cur) >= 1
        &&& y == -1 ==> row_of(before.width as int, cur) + 1 < before.height
        &&& !before.cells@[next].visited
        &&& self.backtrace@ == before.backtrace@.push(before.current)
        &&& self.cells@.len() == before.cells@.len()
        &&& forall|k: int|
            0 <= k < before.cells@.len() && k != cur && k != next ==> #[trigger] self.cells@[k]
                == before.cells@[k]
        &&& self.cells@[cur].visited
        &&& self.cells@[cur].walls@ == before.cells@[cur].walls_without(x, y)
        &&& self.cells@[next].visited
        &&& self.cells@[next].walls@ == before.cells@[next].walls_without(-x, -y)
    }

    /// A step takes down no wall but the one between the two cells, from
    /// both sides, and leaves the walls in agreement.
    pub proof fn lemma_step_walls(
        &self,
        before: &Grid,
        root: int,
        parent: Seq<int>,
        rank: Seq<nat>,
        x: int,
        y: int,
    )
        requires
            self.steps_from(before, x, y),
            before.growing(root, parent, rank),
        ensures
            self.walls_agree(),
            forall|k: int|
                0 <= k < self.cells@.len() && !(#[trigger] self.cells@[k]).visited ==> walled_in(
                    self.cells@[k],
                ),
            forall|at: int|
                0 <= at < self.backtrace@.len()
                    ==> self.cells@[#[trigger] self.backtrace@[at] as int].visited,
            forall|k: int, side: int|
                0 <= k < self.cells@.len() && 0 <= side < 4 && !before.cells@[k].walls@[side]
                    ==> !#[trigger] self.cells@[k].walls@[side],
            self.linked_cells(self.current as int, before.current as int),
            one_if_down(self.cells@[before.current as int], RIGHT) + one_if_down(
                self.cells@[before.current as int],
                BOTTOM,
            ) + one_if_down(self.cells@[self.current as int], RIGHT) + one_if_down(
                self.cells@[self.current as int],
                BOTTOM,
            ) == one_if_down(before.cells@[before.current as int], RIGHT) + one_if_down(
                before.cells@[before.current as int],
                BOTTOM,
            ) + one_if_down(before.cells@[self.current as int], RIGHT) + one_if_down(
                before.cells@[self.current as int],
                BOTTOM,
            ) + 1,
    {
        let w = self.width as int;
        let h = self.height as int;
        let n = self.cells@.len() as int;
        let cur = before.current as int;
        let next = self.current as int;
        lemma_index_cell(w, h, cur);
        lemma_index_cell(w, h, next);
        let was = before.cells@[cur];
        let new = before.cells@[next];
        assert(walled_in(new));
        assert(before.cells@[cur] == was);
        let cur_now = self.cells@[cur];
        let next_now = self.cells@[next];
        assert(self.cells@[cur] == cur_now && self.cells@[next] == next_now);
        assert(cur_now.walls@ == was.walls_without(x, y));
        assert(next_now.walls@ == new.walls_without(-x, -y));
        let side: int = if x == 1 {
            LEFT as int
        } else if x == -1 {
            RIGHT as int
        } else if y == 1 {
            TOP as int
        } else {
            BOTTOM as int
        };
        let back: int = if x == 1 {
            RIGHT as int
        } else if x == -1 {
            LEFT as int
        } else if y == 1 {
            BOTTOM as int
        } else {
            TOP as int
        };
        assert(before.agrees_at(cur));
        assert(before.agrees_at(next));
        assert(was.walls@[side]);
        assert(forall|d: int| 0 <= d < 4 ==> cur_now.walls@[d] == (was.walls@[d] && d != side));
        assert(forall|d: int| 0 <= d < 4 ==> next_now.walls@[d] == (d != back));
        lemma_cell_index(w, h, col_of(w, cur) - x, row_of(w, cur) - y);
        assert((row_of(w, cur) - y) * w + (col_of(w, cur) - x) == row_of(w, cur) * w + col_of(
            w,
            cur,
        ) - x - y * w) by (nonlinear_arith);
        assert(col_of(w, next) == col_of(w, cur) - x);
        assert(row_of(w, next) == row_of(w, cur) - y);
        assert forall|k: int, side: int|
            0 <= k < n && 0 <= side < 4 && !before.cells@[k].walls@[side]
            implies !#[trigger] self.cells@[k].walls@[side] by {
            if k != cur && k != next {
                assert(self.cells@[k] == before.cells@[k]);
            }
        }
        assert forall|k: int| 0 <= k < n implies #[trigger] self.agrees_at(k) by {
            let old_cell = before.cells@[k];
            let cell = self.cells@[k];
            assert(before.agrees_at(k));
            if k != cur && k != next {
                assert(self.cells@[k] == before.cells@[k]);
            }
            if !cell.walls@[RIGHT as int] {
                if old_cell.walls@[RIGHT as int] {
                    assert((k == cur && side == RIGHT) || (k == next && back == RIGHT));
                } else {
                    assert(!before.cells@[k + 1].walls@[LEFT as int]);
                    assert(!self.cells@[k + 1].walls@[LEFT as int]);
                }
            }
            if !cell.walls@[LEFT as int] {
                if old_cell.walls@[LEFT as int] {
                    assert((k == cur && side == LEFT) || (k == next && back == LEFT));
                } else {
                    assert(!before.cells@[k - 1].walls@[RIGHT as int]);
                    assert(!self.cells@[k - 1].walls@[RIGHT as int]);
                }
            }
            if !cell.walls@[BOTTOM as int] {
                if old_cell.walls@[BOTTOM as int] {
                    assert((k == cur && side == BOTTOM) || (k == next && back == BOTTOM));
                } else {
                    assert(!before.cells@[k + w].walls@[TOP as int]);
                    assert(!self.cells@[k + w].walls@[TOP as int]);
                }
            }
            if !cell.walls@[TOP as int] {
                if old_cell.walls@[TOP as int] {
                    assert((k == cur && side == TOP) || (k == next && back == TOP));
                } else {
                    assert(!before.cells@[k - w].walls@[BOTTOM as int]);
                    assert(!self.cells@[k - w].walls@[BOTTOM as int]);
                }
            }
        }
        assert forall|k: int| 0 <= k < n && !(#[trigger] self.cells@[k]).visited implies walled_in(
            self.cells@[k],
        ) by {
            assert(self.cells@[k] == before.cells@[k]);
        }
        assert forall|at: int|
            0 <= at < self.backtrace@.len()
            implies self.cells@[#[trigger] self.backtrace@[at] as int].visited by {
            if at < before.backtrace@.len() {
                let k = before.backtrace@[at] as int;
                assert(before.cells@[k].visited);
                if k != cur && k != next {
                    assert(self.cells@[k] == before.cells@[k]);
                }
            }
        }
    }

    /// A step makes one link more and leaves one cell less to visit.
    pub proof fn lemma_step_counts(
        &self,
        before: &Grid,
        root: int,
        parent: Seq<int>,
        rank: Seq<nat>,
        x: int,
        y: int,
    )
        requires
            self.steps_from(before, x, y),
            before.growing(root, parent, rank),
        ensures
            count_links(self.cells@, self.cells@.len() as int) == count_links(
                before.cells@,
                before.cells@.len() as int,
            ) + 1,
            count_unvisited(self.cells@, self.cells@.len() as int) + 1 == count_unvisited(
                before.cells@,
                before.cells@.len() as int,
            ),
    {
        let n = self.cells@.len() as int;
        let cur = before.current as int;
        let next = self.current as int;
        self.lemma_step_walls(before, root, parent, rank, x, y);
        let mid = before.cells@.update(cur, self.cells@[cur]);
        assert forall|i: int| 0 <= i < n && i != next implies self.cells@[i].walls@
            == mid[i].walls@ by {
            if i != cur {
                assert(self.cells@[i] == before.cells@[i]);
            }
        }
        assert forall|i: int| 0 <= i < n && i != next implies self.cells@[i].visited
            == mid[i].visited by {
            if i != cur {
                assert(self.cells@[i] == before.cells@[i]);
            }
        }
        lemma_links_update(before.cells@, mid, cur, n);
        lemma_links_update(mid, self.cells@, next, n);
        lemma_visit(before.cells@, mid, cur, n);
        lemma_visit(mid, self.cells@, next, n);
    }

    /// A step grows the tree by the neighbour, a child of the cell left.
    pub proof fn lemma_step_tree(
        &self,
        before: &Grid,
        root: int,
        parent: Seq<int>,
        rank: Seq<nat>,
        x: int,
        y: int,
    )
        requires
            self.steps_from(before, x, y),
            before.growing(root, parent, rank),
        ensures
            self.is_tree(
                root,
                parent.update(self.current as int, before.current as int),
                rank.update(self.current as int, rank[before.current as int] + 1),
            ),
    {
        let n = self.cells@.len() as int;
        let cur = before.current as int;
        let next = self.current as int;
        let grown = parent.update(next, cur);
        let ranks = rank.update(next, rank[cur] + 1);
        self.lemma_step_walls(before, root, parent, rank, x, y);
        assert forall|k: int| 0 <= k < n implies #[trigger] self.hangs_at(
            k,
            root,
            grown,
            ranks,
        ) by {
            if self.cells@[k].visited && k != root && k != next {
                assert(before.cells@[k].visited) by {
                    if k != cur {
                        assert(self.cells@[k] == before.cells@[k]);
                    }
                }
                assert(before.hangs_at(k, root, parent, rank));
                let p = parent[k];
                assert(p != next);
                if p != cur {
                    assert(self.cells@[p] == before.cells@[p]);
                }
                let right = RIGHT as int;
                let below = BOTTOM as int;
                assert(!before.cells@[k].walls@[right] ==> !self.cells@[k].walls@[right]);
                assert(!before.cells@[k].walls@[below] ==> !self.cells@[k].walls@[below]);
                assert(!before.cells@[p].walls@[right] ==> !self.cells@[p].walls@[right]);
                assert(!before.cells@[p].walls@[below] ==> !self.cells@[p].walls@[below]);
            }
        }
    }

    /// A grid that the walk has not touched is a tree yet to grow.
    pub proof fn lemma_untouched_growing(&self, parent: Seq<int>, rank: Seq<nat>)
        requires
            self.wf(),
            self.untouched(),
            parent.len() == self.cells@.len(),
            rank.len() == self.cells@.len(),
        ensures
            self.growing(self.current as int, parent, rank),
    {
        let n = self.cells@.len() as int;
        lemma_untouched_counts(self.cells@, n);
        assert forall|k: int| 0 <= k < n implies #[trigger] self.agrees_at(k) by {
            assert(walled_in(self.cells@[k]));
        }
        assert forall|k: int| 0 <= k < n implies #[trigger] self.hangs_at(
            k,
            self.current as int,
            parent,
            rank,
        ) by {
            assert(!self.cells@[k].visited);
        }
    }

    /// Marking the current cell as visited, and going back to a visited
    /// cell on the stack, leave the tree as it has grown.
    pub proof fn lemma_stays_grown(
        &self,
        before: &Grid,
        root: int,
        parent: Seq<int>,
        rank: Seq<nat>,
    )
        requires
            before.wf(),
            self.wf(),
            self.width == before.width,
            self.height == before.height,
            before.growing(root, parent, rank),
            self.cells@.len() == before.cells@.len(),
            forall|k: int|
                0 <= k < before.cells@.len() && k != before.current ==> #[trigger] self.cells@[k]
                    == before.cells@[k],
            self.cells@[before.current as int].visited,
            self.cells@[before.current as int].walls@
                == before.cells@[before.current as int].walls@,
            self.cells@[self.current as int].visited,
            forall|at: int|
                0 <= at < self.backtrace@.len()
                    ==> self.cells@[#[trigger] self.backtrace@[at] as int].visited,
        ensures
            self.growing(root, parent, rank),
    {
        let n = self.cells@.len() as int;
        let cur = before.current as int;
        lemma_visit(before.cells@, self.cells@, cur, n);
        lemma_links_update(before.cells@, self.cells@, cur, n);
        assert forall|k: int, d: int| 0 <= k < n && 0 <= d < 4 implies self.cells@[k].walls@[d]
            == before.cells@[k].walls@[d] by {
            if k != cur {
                assert(self.cells@[k] == before.cells@[k]);
            }
        }
        assert forall|k: int| 0 <= k < n implies #[trigger] self.agrees_at(k) by {
            assert(before.agrees_at(k));
        }
        assert forall|k: int| 0 <= k < n && !(#[trigger] self.cells@[k]).visited implies walled_in(
            self.cells@[k],
        ) by {
            assert(self.cells@[k] == before.cells@[k]);
        }
        assert forall|k: int| 0 <= k < n implies #[trigger] self.hangs_at(
            k,
            root,
            parent,
            rank,
        ) by {
            if self.cells@[k].visited && k != root {
                if k != cur {
                    assert(self.cells@[k] == before.cells@[k]);
                }
                assert(before.cells@[k].visited);
                assert(before.hangs_at(k, root, parent, rank));
                let p = parent[k];
                if p != cur {
                    assert(self.cells@[p] == before.cells@[p]);
                }
            }
        }
    }

    /// A tree that has grown over all cells is a spanning tree.
    pub proof fn lemma_grown_spans(&self, root: int, parent: Seq<int>, rank: Seq<nat>)
        requires
            self.wf(),
            self.growing(root, parent, rank),
            self.all_visited(),
        ensures
            self.spanning_tree(root),
    {
        lemma_none_unvisited(self.cells@, self.cells@.len() as int);
        assert(self.is_tree(root, parent, rank));
    }

    /// A step to a neighbour that the walk has not been to, the wall
    /// between the two taken down, grows the tree by that neighbour.
    pub proof fn lemma_step_grows(
        &self,
        before: &Grid,
        root: int,
        parent: Seq<int>,
        rank: Seq<nat>,
        x: int,
        y: int,
    )
        requires
            self.steps_from(before, x, y),
            before.growing(root, parent, rank),
        ensures
            self.growing(
                root,
                parent.update(self.current as int, before.current as int),
                rank.update(self.current as int, rank[before.current as int] + 1),
            ),
    {
        self.lemma_step_walls(before, root, parent, rank, x, y);
        self.lemma_step_counts(before, root, parent, rank, x, y);
        self.lemma_step_tree(before, root, parent, rank, x, y);
    }
}

impl Grid {
    /// The grid's invariant: cells row by row, each knowing its place, and
    /// the walk standing on a cell.
    pub open spec fn wf(&self) -> bool {
        &&& 1 <= self.width <= MAX_DIMENSION / 2
        &&& 1 <= self.height <= MAX_DIMENSION / 2
        &&& self.cells@.len() == self.width * self.height
        &&& forall|k: int|
            0 <= k < self.cells@.len() ==> (#[trigger] self.cells@[k]).col == col_of(
                self.width as int,
                k,
            ) && self.cells@[k].row == row_of(self.width as int, k)
        &&& self.current < self.cells@.len()
        &&& forall|k: int|
            0 <= k < self.backtrace@.len() ==> (#[trigger] self.backtrace@[k]) < self.cells@.len()
    }

    /// Whether the rendering of the grid lies off the border of `map`.
    pub open spec fn fits(&self, map: &TileMap) -> bool {
        2 * self.width + 3 <= map.width && 2 * self.height + 3 <= map.height
    }

    /// Whether there is a cell at `(row, col)` that the walk has not been
    /// to.
    pub open spec fn unvisited_at(&self, row: int, col: int) -> bool {
        &&& 0 <= row < self.height
        &&& 0 <= col < self.width
        &&& !self.cells@[cell_index(self.width as int, col, row)].visited
    }

    /// `list` with the cell at `(row, col)` added, if it is there and not
    /// visited.
    pub open spec fn with_neighbour(&self, list: Seq<usize>, row: int, col: int) -> Seq<usize> {
        if self.unvisited_at(row, col) {
            list.push(cell_index(self.width as int, col, row) as usize)
        } else {
            list
        }
    }

    /// The unvisited neighbours of the current cell: above, right, below,
    /// left.
    pub open spec fn spec_neighbors(&self) -> Seq<usize> {
        let row = self.cells@[self.current as int].row as int;
        let col = self.cells@[self.current as int].col as int;
        self.with_neighbour(
            self.with_neighbour(
                self.with_neighbour(self.with_neighbour(Seq::empty(), row - 1, col), row, col + 1),
                row + 1,
                col,
            ),
            row,
            col - 1,
        )
    }

    /// Whether the walk has been to every cell next to cell `k` in its row
    /// and column.
    pub open spec fn closed_cell(&self, k: int) -> bool {
        let row = row_of(self.width as int, k);
        let col = col_of(self.width as int, k);
        &&& !self.unvisited_at(row - 1, col)
        &&& !self.unvisited_at(row, col + 1)
        &&& !self.unvisited_at(row + 1, col)
        &&& !self.unvisited_at(row, col - 1)
    }

    /// Whether cell `k` is the current cell or waits on the stack.
    pub open spec fn on_stack(&self, k: int) -> bool {
        k == self.current || exists|at: int|
            0 <= at < self.backtrace@.len() && #[trigger] self.backtrace@[at] == k
    }

    /// Whether the walk has left no visited cell behind that still has an
    /// unvisited neighbour.
    pub open spec fn nothing_left_behind(&self) -> bool {
        forall|k: int|
            0 <= k < self.cells@.len() && (#[trigger] self.cells@[k]).visited && !self.on_stack(k)
                ==> self.closed_cell(k)
    }

    /// Whether the walk has been to every cell.
    pub open spec fn all_visited(&self) -> bool {
        forall|k: int| 0 <= k < self.cells@.len() ==> (#[trigger] self.cells@[k]).visited
    }

    /// Where every visited cell has visited neighbours only, a visited
    /// cell has its whole row visited, up to `far` cells away.
    pub proof fn lemma_row_visited(&self, row: int, col: int, far: nat, to: int)
        requires
            self.wf(),
            forall|k: int|
                0 <= k < self.cells@.len() && (#[trigger] self.cells@[k]).visited
                    ==> self.closed_cell(k),
            0 <= row < self.height,
            0 <= col < self.width,
            0 <= to < self.width,
            self.cells@[cell_index(self.width as int, col, row)].visited,
            to - col <= far,
            col - to <= far,
        ensures
            self.cells@[cell_index(self.width as int, to, row)].visited,
        decreases far,
    {
        let w = self.width as int;
        let h = self.height as int;
        if to != col {
            let near = if to > col {
                to - 1
            } else {
                to + 1
            };
            self.lemma_row_visited(row, col, (far - 1) as nat, near);
            lemma_cell_unique(w, h, near, row);
            lemma_cell_index(w, h, to, row);
            let k = cell_index(w, near, row);
            assert(self.cells@[k].visited);
            assert(self.closed_cell(k));
        }
    }

    /// Where every visited cell has visited neighbours only, a visited
    /// cell has its whole column visited, up to `far` cells away.
    pub proof fn lemma_column_visited(&self, row: int, col: int, far: nat, to: int)
        requires
            self.wf(),
            forall|k: int|
                0 <= k < self.cells@.len() && (#[trigger] self.cells@[k]).visited
                    ==> self.closed_cell(k),
            0 <= row < self.height,
            0 <= col < self.width,
            0 <= to < self.height,
            self.cells@[cell_index(self.width as int, col, row)].visited,
            to - row <= far,
            row - to <= far,
        ensures
            self.cells@[cell_index(self.width as int, col, to)].visited,
        decreases far,
    {
        let w = self.width as int;
        let h = self.height as int;
        if to != row {
            let near = if to > row {
                to - 1
            } else {
                to + 1
            };
            self.lemma_column_visited(row, col, (far - 1) as nat, near);
            lemma_cell_unique(w, h, col, near);
            lemma_cell_index(w, h, col, to);
            let k = cell_index(w, col, near);
            assert(self.cells@[k].visited);
            assert(self.closed_cell(k));
        }
    }

    /// Where every visited cell has visited neighbours only and some cell
    /// is visited, all are.
    pub proof fn lemma_all_visited(&self, some: int)
        requires
            self.wf(),
            forall|k: int|
                0 <= k < self.cells@.len() && (#[trigger] self.cells@[k]).visited
                    ==> self.closed_cell(k),
            0 <= some < self.cells@.len(),
            self.cells@[some].visited,
        ensures
            self.all_visited(),
    {
        let w = self.width as int;
        let h = self.height as int;
        lemma_index_cell(w, h, some);
        let row = row_of(w, some);
        let col = col_of(w, some);
        assert forall|k: int| 0 <= k < self.cells@.len() implies (
        #[trigger] self.cells@[k]).visited by {
            lemma_index_cell(w, h, k);
            let to_row = row_of(w, k);
            let to_col = col_of(w, k);
            self.lemma_row_visited(row, col, w as nat, to_col);
            self.lemma_column_visited(row, to_col, h as nat, to_row);
        }
    }

    /// A grid of `width` by `height` unvisited cells with all their walls,
    /// the walk on the first.
    pub fn new(width: i32, height: i32) -> (grid: Grid)
        requires
            1 <= width <= MAX_DIMENSION / 2,
            1 <= height <= MAX_DIMENSION / 2,
        ensures
            grid.wf(),
            grid.width == width,
            grid.height == height,
            grid.current == 0,
            grid.backtrace@.len() == 0,
            forall|k: int|
                0 <= k < grid.cells@.len() ==> !(#[trigger] grid.cells@[k]).visited
                    && grid.cells@[k].walls@ == seq![true, true, true, true],
    {
        let mut cells: Vec<Cell> = Vec::new();
        let mut row: i32 = 0;
        while row < height
            invariant
                1 <= width <= MAX_DIMENSION / 2,
                0 <= row <= height <= MAX_DIMENSION / 2,
                cells@.len() == row * width,
                forall|k: int|
                    0 <= k < cells@.len() ==> (#[trigger] cells@[k]).col == col_of(width as int, k)
                        && cells@[k].row == row_of(width as int, k) && !cells@[k].visited
                        && cells@[k].walls@ == seq![true, true, true, true],
            decreases height - row,
        {
            let mut col: i32 = 0;
            while col < width
                invariant
                    1 <= width <= MAX_DIMENSION / 2,
                    0 <= row < height <= MAX_DIMENSION / 2,
                    0 <= col <= width,
                    cells@.len() == row * width + col,
                    forall|k: int|
                        0 <= k < cells@.len() ==> (#[trigger] cells@[k]).col == col_of(
                            width as int,
                            k,
                        ) && cells@[k].row == row_of(width as int, k) && !cells@[k].visited
                            && cells@[k].walls@ == seq![true, true, true, true],
                decreases width - col,
            {
                proof {
                    lemma_cell_index(width as int, height as int, col as int, row as int);
                }
                cells.push(Cell::new(row, col));
                col += 1;
            }
            proof {
                assert(row * width + width == (row + 1) * width) by (nonlinear_arith);
            }
            row += 1;
        }
        proof {
            assert(height * width == width * height) by (nonlinear_arith);
            assert(1 <= width * height) by (nonlinear_arith)
                requires
                    1 <= width,
                    1 <= height,
            ;
        }
        Grid { width, height, cells, backtrace: Vec::new(), current: 0 }
    }

    /// The index of the cell at `(row, col)`, or `-1` where there is none.
    pub fn calculate_index(&self, row: i32, col: i32) -> (idx: i32)
        requires
            self.wf(),
        ensures
            idx == if 0 <= row < self.height && 0 <= col < self.width {
                cell_index(self.width as int, col as int, row as int)
            } else {
                -1
            },
            idx == -1 || 0 <= idx < self.cells@.len(),
    {
        if row < 0 || col < 0 || col > self.width - 1 || row > self.height - 1 {
            -1
        } else {
            proof {
                lemma_cell_index(self.width as int, self.height as int, col as int, row as int);
                assert(self.width * self.height <= 8192 * 8192) by (nonlinear_arith)
                    requires
                        1 <= self.width <= 8192,
                        1 <= self.height <= 8192,
                ;
                assert(0 <= row * self.width <= self.width * self.height) by (nonlinear_arith)
                    requires
                        0 <= row < self.height,
                        1 <= self.width,
                ;
            }
            col + (row * self.width)
        }
    }

    /// Lists the unvisited neighbours of the current cell.
    pub fn get_available_neighbors(&self) -> (neighbors: Vec<usize>)
        requires
            self.wf(),
        ensures
            neighbors@ == self.spec_neighbors(),
            neighbors@.len() <= 4,
            forall|i: int|
                0 <= i < neighbors@.len() ==> (#[trigger] neighbors@[i]) < self.cells@.len()
                    && !self.cells@[neighbors@[i] as int].visited && neighbors@[i] != self.current,
    {
        let mut neighbors: Vec<usize> = Vec::new();
        let current_row = self.cells[self.current].row;
        let current_col = self.cells[self.current].col;
        proof {
            lemma_index_cell(self.width as int, self.height as int, self.current as int);
            lemma_cell_unique(
                self.width as int,
                self.height as int,
                current_col as int,
                current_row as int,
            );
        }
        let top = self.calculate_index(current_row - 1, current_col);
        if top != -1 && !self.cells[top as usize].visited {
            neighbors.push(top as usize);
        }
        let right = self.calculate_index(current_row, current_col + 1);
        if right != -1 && !self.cells[right as usize].visited {
            neighbors.push(right as usize);
        }
        let bottom = self.calculate_index(current_row + 1, current_col);
        if bottom != -1 && !self.cells[bottom as usize].visited {
            neighbors.push(bottom as usize);
        }
        let left = self.calculate_index(current_row, current_col - 1);
        if left != -1 && !self.cells[left as usize].visited {
            neighbors.push(left as usize);
        }
        proof {
            let w = self.width as int;
            let h = self.height as int;
            let r = current_row as int;
            let c = current_col as int;
            if 0 <= r - 1 {
                lemma_cell_index(w, h, c, r - 1);
            }
            if c + 1 < w {
                lemma_cell_index(w, h, c + 1, r);
            }
            if r + 1 < h {
                lemma_cell_index(w, h, c, r + 1);
            }
            if 0 <= c - 1 {
                lemma_cell_index(w, h, c - 1, r);
            }
            lemma_cell_index(w, h, c, r);
        }
        neighbors
    }

    /// Picks one of the unvisited neighbours of the current cell by the
    /// dice, if there is any.
    pub fn find_next_cell(&mut self, rng: &mut RandomNumberGenerator) -> (next: Option<usize>)
        requires
            old(self).wf(),
        ensures
            *final(self) == *old(self),
            next is None <==> old(self).spec_neighbors().len() == 0,
            next matches Some(n) ==> old(self).spec_neighbors().contains(n) && n
                < old(self).cells@.len() && !old(self).cells@[n as int].visited
                    && n != old(self).current,
    {
        let neighbors = self.get_available_neighbors();
        if neighbors.len() > 0 {
            if neighbors.len() == 1 {
                return Some(neighbors[0]);
            } else {
                return Some(neighbors[(rng.roll_dice(1, neighbors.len() as i32) - 1) as usize]);
            }
        }
        None
    }

    /// Renders the maze on the map: walls everywhere, then for each cell
    /// its tile as floor, and the tile next to it on each side where its
    /// wall is down.
    pub fn copy_to_map(&self, map: &mut TileMap)
        requires
            self.wf(),
            old(map).wf(),
            self.fits(old(map)),
        ensures
            final(map).wf(),
            final(map).same_but_tiles(old(map)),
            forall|i: int|
                0 <= i < final(map).tiles@.len()
                    ==> #[trigger] final(map).tiles@[i] == if maze_floor(
                    self.cells@,
                    self.cells@.len() as int,
                    col_of(old(map).width as int, i),
                    row_of(old(map).width as int, i),
                ) {
                    TileType::Floor
                } else {
                    TileType::Wall
                },
            final(map).border_closed(),
    {
        let ghost w = map.width as int;
        let ghost h = map.height as int;
        let n = map.tiles.len();
        let mut i: usize = 0;
        while i < n
            invariant
                map.wf(),
                map.same_but_tiles(old(map)),
                n == map.tiles@.len(),
                i <= n,
                forall|j: int| 0 <= j < i ==> map.tiles@[j] == TileType::Wall,
            decreases n - i,
        {
            map.tiles[i] = TileType::Wall;
            i += 1;
        }
        let width = map.width as usize;
        let mut k: usize = 0;
        while k < self.cells.len()
            invariant
                self.wf(),
                map.wf(),
                map.same_but_tiles(old(map)),
                self.fits(map),
                w == map.width,
                h == map.height,
                width == w,
                k <= self.cells@.len(),
                forall|j: int|
                    0 <= j < map.tiles@.len() ==> #[trigger] map.tiles@[j] == if maze_floor(
                        self.cells@,
                        k as int,
                        col_of(w, j),
                        row_of(w, j),
                    ) {
                        TileType::Floor
                    } else {
                        TileType::Wall
                    },
            decreases self.cells@.len() - k,
        {
            let cell = self.cells[k];
            proof {
                lemma_index_cell(self.width as int, self.height as int, k as int);
            }
            let x = (cell.col + 1) * 2;
            let y = (cell.row + 1) * 2;
            proof {
                lemma_cell_unique(w, h, x as int, y as int);
                lemma_cell_unique(w, h, x as int, y - 1);
                lemma_cell_unique(w, h, x + 1, y as int);
                lemma_cell_unique(w, h, x as int, y + 1);
                lemma_cell_unique(w, h, x - 1, y as int);
                assert((y - 1) * w + x == y * w + x - w) by (nonlinear_arith);
                assert((y + 1) * w + x == y * w + x + w) by (nonlinear_arith);
                assert(w * h <= 0x1000_0000) by (nonlinear_arith)
                    requires
                        1 <= w <= 16384,
                        1 <= h <= 16384,
                ;
            }
            let idx = map.xy_idx(x, y);
            map.tiles[idx] = TileType::Floor;
            if !cell.walls[TOP] {
                map.tiles[idx - width] = TileType::Floor;
            }
            if !cell.walls[RIGHT] {
                map.tiles[idx + 1] = TileType::Floor;
            }
            if !cell.walls[BOTTOM] {
                map.tiles[idx + width] = TileType::Floor;
            }
            if !cell.walls[LEFT] {
                map.tiles[idx - 1] = TileType::Floor;
            }
            proof {
                assert forall|j: int| 0 <= j < map.tiles@.len() implies #[trigger] map.tiles@[j]
                    == if maze_floor(self.cells@, k + 1, col_of(w, j), row_of(w, j)) {
                    TileType::Floor
                } else {
                    TileType::Wall
                } by {
                    let cx = col_of(w, j);
                    let cy = row_of(w, j);
                    if maze_floor(self.cells@, k as int, cx, cy) {
                        let m = choose|m: int| 0 <= m < k
                            && carves(#[trigger] self.cells@[m], cx, cy);
                        assert(carves(self.cells@[m], cx, cy));
                    }
                    if carves(cell, cx, cy) {
                        assert(carves(self.cells@[k as int], cx, cy));
                    }
                    if maze_floor(self.cells@, k + 1, cx, cy) {
                        let m = choose|m: int|
                            0 <= m < k + 1 && carves(#[trigger] self.cells@[m], cx, cy);
                        if m < k {
                            assert(maze_floor(self.cells@, k as int, cx, cy));
                        }
                    }
                }
            }
            k += 1;
        }
        proof {
            assert forall|j: int|
                0 <= j < map.tiles@.len() && crate::tile_map::on_border(
                    w,
                    h,
                    col_of(w, j),
                    row_of(w, j),
                ) implies #[trigger] map.tiles@[j] == TileType::Wall by {
                let cx = col_of(w, j);
                let cy = row_of(w, j);
                if maze_floor(self.cells@, self.cells@.len() as int, cx, cy) {
                    let m = choose|m: int|
                        0 <= m < self.cells@.len() && carves(#[trigger] self.cells@[m], cx, cy);
                    lemma_index_cell(self.width as int, self.height as int, m);
                }
            }
        }
    }

    /// Walks the grid: from the current cell to an unvisited neighbour that
    /// the dice pick, taking down the wall between the two and putting the
    /// cell left on the stack; back to the cell on top of the stack where
    /// there is no such neighbour; until the stack is empty. Renders the
    /// maze every fifty steps for the history, and at the end.
    pub fn generate_maze(&mut self, rng: &mut RandomNumberGenerator, build_data: &mut BuildData)
        requires
            old(self).wf(),
            old(build_data).wf(),
            old(self).fits(&old(build_data).map),
        ensures
            final(self).wf(),
            final(self).width == old(self).width,
            final(self).height == old(self).height,
            final(self).backtrace@.len() == 0,
            old(self).nothing_left_behind() ==> final(self).all_visited(),
            old(self).untouched() ==> final(self).spanning_tree(old(self).current as int),
            final(build_data).wf(),
            final(build_data).map.same_but_tiles(&old(build_data).map),
            final(build_data).map.border_closed(),
            forall|i: int|
                0 <= i < final(build_data).map.tiles@.len()
                    ==> #[trigger] final(build_data).map.tiles@[i] == if maze_floor(
                    final(self).cells@,
                    final(self).cells@.len() as int,
                    col_of(old(build_data).map.width as int, i),
                    row_of(old(build_data).map.width as int, i),
                ) {
                    TileType::Floor
                } else {
                    TileType::Wall
                },
            final(build_data).spawn_list == old(build_data).spawn_list,
            final(build_data).start == old(build_data).start,
            final(build_data).rooms == old(build_data).rooms,
            final(build_data).extends_history(old(build_data)),
            final(build_data).shows_map(),
    {
        let mut i: u32 = 0;
        let ghost root = self.current as int;
        let ghost mut parent: Seq<int> = Seq::new(self.cells@.len(), |k: int| 0int);
        let ghost mut rank: Seq<nat> = Seq::new(self.cells@.len(), |k: int| 0nat);
        proof {
            if self.untouched() {
                self.lemma_untouched_growing(parent, rank);
            }
        }
        loop
            invariant
                root == old(self).current,
                old(self).untouched() ==> self.growing(root, parent, rank),
                self.wf(),
                self.width == old(self).width,
                self.height == old(self).height,
                build_data.wf(),
                self.fits(&build_data.map),
                build_data.map.same_but_tiles(&old(build_data).map),
                build_data.spawn_list == old(build_data).spawn_list,
                build_data.start == old(build_data).start,
                build_data.rooms == old(build_data).rooms,
                build_data.extends_history(old(build_data)),
                i < 50,
                old(self).nothing_left_behind() ==> self.nothing_left_behind(),
            ensures
                old(self).untouched() ==> self.growing(root, parent, rank),
                self.backtrace@.len() == 0,
                self.spec_neighbors().len() == 0,
                self.cells@[self.current as int].visited,
                old(self).nothing_left_behind() ==> self.nothing_left_behind(),
            decreases count_unvisited(self.cells@, self.cells@.len() as int), self.backtrace@.len(),
        {
            let ghost at_entry = *self;
            let ghost cells_0 = self.cells@;
            let mut here = self.cells[self.current];
            here.visited = true;
            self.cells[self.current] = here;
            proof {
                lemma_visit(cells_0, self.cells@, self.current as int, cells_0.len() as int);
            }
            let ghost cells_1 = self.cells@;
            let ghost marked = *self;
            proof {
                if old(self).untouched() {
                    marked.lemma_stays_grown(&at_entry, root, parent, rank);
                }
            }
            let next = self.find_next_cell(rng);
            match next {
                Some(next) => {
                    self.backtrace.push(self.current);
                    let mut cell1 = self.cells[self.current];
                    let mut cell2 = self.cells[next];
                    cell2.visited = true;
                    proof {
                        lemma_index_cell(
                            self.width as int,
                            self.height as int,
                            self.current as int,
                        );
                        lemma_index_cell(self.width as int, self.height as int, next as int);
                    }
                    cell1.remove_walls(&mut cell2);
                    self.cells[self.current] = cell1;
                    self.cells[next] = cell2;
                    proof {
                        lemma_visit(cells_1, self.cells@, next as int, cells_1.len() as int);
                    }
                    self.current = next;
                    proof {
                        if old(self).untouched() {
                            marked.lemma_neighbour_beside(next);
                            let w = self.width as int;
                            let x = marked.cells@[marked.current as int].col
                                - marked.cells@[next as int].col;
                            let y = marked.cells@[marked.current as int].row
                                - marked.cells@[next as int].row;
                            assert(x == col_of(w, marked.current as int) - col_of(w, next as int));
                            assert(y == row_of(w, marked.current as int) - row_of(w, next as int));
                            if next == marked.current - w {
                                lemma_cell_index(
                                    w,
                                    self.height as int,
                                    col_of(w, marked.current as int),
                                    row_of(w, marked.current as int) - 1,
                                );
                                assert((row_of(w, marked.current as int) - 1) * w == row_of(
                                    w,
                                    marked.current as int,
                                ) * w - w) by (nonlinear_arith);
                            } else if next == marked.current + w {
                                lemma_cell_index(
                                    w,
                                    self.height as int,
                                    col_of(w, marked.current as int),
                                    row_of(w, marked.current as int) + 1,
                                );
                                assert((row_of(w, marked.current as int) + 1) * w == row_of(
                                    w,
                                    marked.current as int,
                                ) * w + w) by (nonlinear_arith);
                            } else if next == marked.current + 1 {
                                lemma_cell_index(
                                    w,
                                    self.height as int,
                                    col_of(w, marked.current as int) + 1,
                                    row_of(w, marked.current as int),
                                );
                            } else {
                                lemma_cell_index(
                                    w,
                                    self.height as int,
                                    col_of(w, marked.current as int) - 1,
                                    row_of(w, marked.current as int),
                                );
                            }
                            assert(self.steps_from(&marked, x, y));
                            self.lemma_step_grows(&marked, root, parent, rank, x, y);
                            parent = parent.update(next as int, marked.current as int);
                            rank = rank.update(next as int, rank[marked.current as int] + 1);
                        }
                        if old(self).nothing_left_behind() {
                            assert forall|k: int|
                                0 <= k < at_entry.cells@.len() && #[trigger] at_entry.on_stack(
                                    k,
                                ) implies self.on_stack(k) by {
                                if k == at_entry.current {
                                    assert(self.backtrace@[self.backtrace@.len() - 1] == k);
                                } else {
                                    let at = choose|at: int|
                                        0 <= at < at_entry.backtrace@.len()
                                            && #[trigger] at_entry.backtrace@[at] == k;
                                    assert(self.backtrace@[at] == k);
                                }
                            }
                            assert forall|k: int|
                                0 <= k < self.cells@.len() && (#[trigger] self.cells@[k]).visited
                                    && !at_entry.cells@[k].visited implies self.on_stack(k) by {
                                if k != next && k != at_entry.current {
                                    assert(self.cells@[k] == at_entry.cells@[k]);
                                }
                                if k == at_entry.current {
                                    assert(self.backtrace@[self.backtrace@.len() - 1] == k);
                                }
                            }
                            self.lemma_step_leaves_nothing(&at_entry);
                        }
                    }
                },
                None => {
                    if self.backtrace.len() > 0 {
                        self.current = self.backtrace.pop().unwrap();
                        proof {
                            if old(self).untouched() {
                                assert(marked.cells@[marked.backtrace@[marked.backtrace@.len()
                                    - 1] as int].visited);
                                assert forall|at: int|
                                    0 <= at < self.backtrace@.len()
                                    implies self.cells@[#[trigger] self.backtrace@[at]
                                    as int].visited by {
                                    assert(marked.backtrace@[at] == self.backtrace@[at]);
                                }
                                self.lemma_stays_grown(&marked, root, parent, rank);
                            }
                            if old(self).nothing_left_behind() {
                                marked.lemma_step_leaves_nothing(&at_entry);
                                self.lemma_back_leaves_nothing(&marked);
                            }
                        }
                    } else {
                        proof {
                            if old(self).nothing_left_behind() {
                                self.lemma_step_leaves_nothing(&at_entry);
                            }
                        }
                        break ;
                    }
                },
            }
            if i == 0 {
                self.copy_to_map(&mut build_data.map);
                build_data.take_snapshot();
            }
            i = if i == 49 {
                0
            } else {
                i + 1
            };
        }
        proof {
            if old(self).untouched() {
                assert(old(self).nothing_left_behind());
            }
            if old(self).nothing_left_behind() {
                assert forall|k: int|
                    0 <= k < self.cells@.len() && (
                    #[trigger] self.cells@[k]).visited implies self.closed_cell(k) by {
                    if k != self.current {
                        assert(!self.on_stack(k));
                    }
                }
                self.lemma_all_visited(self.current as int);
            }
            if old(self).untouched() {
                self.lemma_grown_spans(root, parent, rank);
            }
        }
        self.copy_to_map(&mut build_data.map);
        build_data.take_snapshot();
    }

    /// A state that differs from `before` in more cells visited, the same
    /// or more cells on the stack, and walls, leaves nothing behind if
    /// `before` left nothing behind.
    pub proof fn lemma_step_leaves_nothing(&self, before: &Grid)
        requires
            before.wf(),
            self.wf(),
            self.width == before.width,
            self.height == before.height,
            before.nothing_left_behind(),
            forall|k: int|
                0 <= k < before.cells@.len() && (#[trigger] before.cells@[k]).visited
                    ==> self.cells@[k].visited,
            forall|k: int|
                0 <= k < before.cells@.len() && #[trigger] before.on_stack(k) ==> self.on_stack(k),
            forall|k: int|
                0 <= k < self.cells@.len() && (#[trigger] self.cells@[k]).visited
                    && !before.cells@[k].visited ==> self.on_stack(k),
        ensures
            self.nothing_left_behind(),
    {
        let w = self.width as int;
        let h = self.height as int;
        assert forall|k: int|
            0 <= k < self.cells@.len() && (#[trigger] self.cells@[k]).visited && !self.on_stack(
                k,
            ) implies self.closed_cell(k) by {
            assert(before.cells@[k].visited);
            assert(!before.on_stack(k));
            assert(before.closed_cell(k));
            lemma_index_cell(w, h, k);
            let row = row_of(w, k);
            let col = col_of(w, k);
            if 0 <= row - 1 {
                lemma_cell_index(w, h, col, row - 1);
            }
            if row + 1 < h {
                lemma_cell_index(w, h, col, row + 1);
            }
            if 0 <= col - 1 {
                lemma_cell_index(w, h, col - 1, row);
            }
            if col + 1 < w {
                lemma_cell_index(w, h, col + 1, row);
            }
        }
    }

    /// Going back to the cell on top of the stack from a cell without
    /// unvisited neighbours leaves nothing behind.
    pub proof fn lemma_back_leaves_nothing(&self, before: &Grid)
        requires
            before.wf(),
            self.wf(),
            before.nothing_left_behind(),
            before.closed_cell(before.current as int),
            self.width == before.width,
            self.height == before.height,
            self.cells == before.cells,
            before.backtrace@.len() > 0,
            self.backtrace@ == before.backtrace@.drop_last(),
            self.current == before.backtrace@.last(),
        ensures
            self.nothing_left_behind(),
    {
        assert forall|k: int|
            0 <= k < self.cells@.len() && (#[trigger] self.cells@[k]).visited && !self.on_stack(
                k,
            ) implies self.closed_cell(k) by {
            if exists|at: int|
                0 <= at < before.backtrace@.len() && #[trigger] before.backtrace@[at] == k {
                let at = choose|at: int|
                    0 <= at < before.backtrace@.len() && #[trigger] before.backtrace@[at] == k;
                if at < before.backtrace@.len() - 1 {
                    assert(self.backtrace@[at] == k);
                } else {
                    assert(self.current == k);
                }
            }
            if k != before.current {
                assert(!before.on_stack(k));
                assert(before.closed_cell(k));
            }
            assert(self.closed_cell(k) == before.closed_cell(k));
        }
    }
}

/// Whether `tiles` show the maze of `grid` on a map `width` wide: floor on
/// the tile of each cell and on the tile between two cells where the wall
/// between them is down, wall everywhere else.
pub open spec fn shows_maze(tiles: Seq<TileType>, width: int, grid: &Grid) -> bool {
    forall|i: int|
        0 <= i < tiles.len() ==> #[trigger] tiles[i] == if maze_floor(
            grid.cells@,
            grid.cells@.len() as int,
            col_of(width, i),
            row_of(width, i),
        ) {
            TileType::Floor
        } else {
            TileType::Wall
        }
}

impl MazeBuilder {
    pub fn new() -> (stage: Box<MazeBuilder>) {
        Box::new(MazeBuilder {  })
    }

    /// Builds a maze of cells half the map's size less two each way and
    /// renders it on the map. The maze is a spanning tree of its cells:
    /// the links between cells lead from every cell to the first, and
    /// there is one link less than there are cells.
    pub fn build(&mut self, rng: &mut RandomNumberGenerator, build_data: &mut BuildData)
        requires
            old(build_data).wf(),
            old(build_data).map.width >= 6,
            old(build_data).map.height >= 6,
        ensures
            final(build_data).wf(),
            final(build_data).map.same_but_tiles(&old(build_data).map),
            final(build_data).map.border_closed(),
            exists|grid: Grid|
                #[trigger] grid.spanning_tree(0) && grid.wf() && grid.width
                    == old(build_data).map.width / 2 - 2 && grid.height
                    == old(build_data).map.height / 2 - 2
                    && shows_maze(
                    final(build_data).map.tiles@,
                    old(build_data).map.width as int,
                    &grid,
                ),
            forall|i: int|
                0 <= i < final(build_data).map.tiles@.len()
                    ==> #[trigger] final(build_data).map.tiles@[i] == TileType::Floor
                    || final(build_data).map.tiles@[i]
                    == TileType::Wall,
            forall|col: int, row: int|
                0 <= col < old(build_data).map.width / 2 - 2
                    && 0 <= row < old(build_data).map.height / 2 - 2
                    ==> final(build_data).map.tiles@[#[trigger] cell_index(
                    old(build_data).map.width as int,
                    (col + 1) * 2,
                    (row + 1) * 2,
                )] == TileType::Floor,
            final(build_data).spawn_list == old(build_data).spawn_list,
            final(build_data).start == old(build_data).start,
            final(build_data).rooms == old(build_data).rooms,
            final(build_data).extends_history(old(build_data)),
            final(build_data).shows_map(),
    {
        let mut maze = Grid::new(
            (build_data.map.width / 2) - 2,
            (build_data.map.height / 2) - 2,
        );
        proof {
            assert(maze.untouched());
        }
        maze.generate_maze(rng, build_data);
        proof {
            assert(maze.spanning_tree(0));
            assert(shows_maze(build_data.map.tiles@, build_data.map.width as int, &maze));
        }
        proof {
            let w = build_data.map.width as int;
            let h = build_data.map.height as int;
            assert forall|col: int, row: int|
                0 <= col < w / 2 - 2 && 0 <= row < h / 2
                    - 2 implies build_data.map.tiles@[#[trigger] cell_index(
                w,
                (col + 1) * 2,
                (row + 1) * 2,
            )] == TileType::Floor by {
                lemma_cell_index(maze.width as int, maze.height as int, col, row);
                let k = cell_index(maze.width as int, col, row);
                assert(maze.cells@[k].col == col && maze.cells@[k].row == row);
                assert(carves(maze.cells@[k], (col + 1) * 2, (row + 1) * 2));
                lemma_cell_unique(w, h, (col + 1) * 2, (row + 1) * 2);
            }
        }
    }
}

impl InitialMapBuilder for MazeBuilder {
    open spec fn initial_outcome(
        &self,
        before: &BuildData,
        after: &BuildData,
        result: Result<(), BuildError>,
    ) -> bool {
        match result {
            Err(error) => error == BuildError::MapTooSmall && (before.map.width < 6
                || before.map.height < 6),
            Ok(_) => {
                &&& !(before.map.width < 6 || before.map.height < 6)
                &&& after.map.border_closed()
                &&& exists|grid: Grid|
                    #[trigger] grid.spanning_tree(0) && grid.wf() && grid.width
                        == before.map.width / 2 - 2 && grid.height == before.map.height / 2 - 2
                        && shows_maze(after.map.tiles@, before.map.width as int, &grid)
                &&& forall|col: int, row: int|
                    0 <= col < before.map.width / 2 - 2 && 0 <= row < before.map.height / 2 - 2
                        ==> after.map.tiles@[#[trigger] cell_index(
                        before.map.width as int,
                        (col + 1) * 2,
                        (row + 1) * 2,
                    )] == TileType::Floor
                &&& after.spawn_list == before.spawn_list
                &&& after.start == before.start
                &&& after.rooms == before.rooms
            },
        }
    }

    fn build_map(&mut self, rng: &mut RandomNumberGenerator, build_data: &mut BuildData) -> (result:
        Result<(), BuildError>)
        ensures
            result is Err <==> old(build_data).map.width < 6 || old(build_data).map.height < 6,
    {
        if build_data.map.width < 6 || build_data.map.height < 6 {
            return Err(BuildError::MapTooSmall);
        }
        self.build(rng, build_data);
        Ok(())
    }
}

} // verus!
