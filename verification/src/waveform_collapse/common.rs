use crate::tile_map::{TileMap, TileType};
use crate::waveform_collapse::constraints::Chunk;
use vstd::prelude::*;

verus! {

/// An entry of the pattern catalog: the tiles of a square pattern, for each
/// side which of its border cells are floor, and for each side which
/// patterns of the catalog may lie next to it there.
pub struct MapChunk {
    pub pattern: Vec<TileType>,
    pub exits: [Vec<bool>; 4],
    pub has_exits: bool,
    pub compatible_with: [Vec<usize>; 4],
}

/// The side at place `i` of the per-side lists of a catalog entry.
pub open spec fn side_of(i: int) -> Direction {
    if i == 0 {
        Direction::North
    } else if i == 1 {
        Direction::South
    } else if i == 2 {
        Direction::West
    } else {
        Direction::East
    }
}

/// Which cells along `side` of a pattern are floor.
pub open spec fn side_exits(pattern: Seq<TileType>, size: int, side: Direction) -> Seq<bool> {
    Seq::new(size as nat, |x: int| pattern[side.spec_index(size, x)] == TileType::Floor)
}

/// Whether any cell of a list of exits is one.
pub open spec fn any_exit(exits: Seq<bool>) -> bool {
    exists|x: int| 0 <= x < exits.len() && exits[x]
}

/// Whether a pattern has a floor cell on any of its sides.
pub open spec fn pattern_has_exits(pattern: Seq<TileType>, size: int) -> bool {
    ||| any_exit(side_exits(pattern, size, Direction::North))
    ||| any_exit(side_exits(pattern, size, Direction::South))
    ||| any_exit(side_exits(pattern, size, Direction::West))
    ||| any_exit(side_exits(pattern, size, Direction::East))
}

/// Whether two lists of exits have an exit at the same place.
pub open spec fn exits_meet(mine: Seq<bool>, theirs: Seq<bool>) -> bool {
    exists|slot: int| 0 <= slot < mine.len() && slot < theirs.len() && mine[slot] && theirs[slot]
}

/// Whether pattern `b` may lie next to pattern `a` on `side` of `a`: one
/// of the two has no exits at all, or an exit of `a` on that side lines up
/// with an exit of `b` on the side facing it.
pub open spec fn compatible(a: Seq<TileType>, b: Seq<TileType>, size: int,
    side: Direction) -> bool {
    ||| !pattern_has_exits(a, size)
    ||| !pattern_has_exits(b, size)
    ||| exits_meet(side_exits(a, size, side), side_exits(b, size, side.spec_opposite()))
}

/// Whether `list` names, in rising order, just the patterns that may lie
/// next to pattern `k` on `side`.
pub open spec fn is_compatible_list(
    list: Seq<usize>,
    patterns: Seq<Seq<TileType>>,
    k: int,
    size: int,
    side: Direction,
) -> bool {
    &&& forall|i: int, j: int| 0 <= i < j < list.len() ==> list[i] < list[j]
    &&& forall|i: int|
        0 <= i < list.len() ==> (#[trigger] list[i]) < patterns.len() && compatible(
            patterns[k],
            patterns[list[i] as int],
            size,
            side,
        )
    &&& forall|j: int|
        0 <= j < patterns.len() && compatible(patterns[k], #[trigger] patterns[j], size, side)
            ==> list.contains(j as usize)
}

/// Whether `catalog` is the catalog of `patterns`: entry by entry the
/// pattern, its exits on each side, whether it has any, and on each side
/// the patterns compatible with it.
pub open spec fn is_catalog(catalog: Seq<MapChunk>, patterns: Seq<Seq<TileType>>,
    size: int) -> bool {
    &&& catalog.len() == patterns.len()
    &&& forall|k: int| 0 <= k < catalog.len()
        ==> (#[trigger] catalog[k]).describes(patterns[k], size)
    &&& forall|k: int, i: int|
        0 <= k < catalog.len() && 0 <= i < 4 ==> is_compatible_list(
            #[trigger] catalog[k].compatible_with[i]@,
            patterns,
            k,
            size,
            side_of(i),
        )
}

/// A list in strictly rising order of numbers below `n` has at most `n`
/// entries.
pub proof fn lemma_rising_len(list: Seq<usize>, n: int)
    requires
        0 <= n,
        forall|i: int, j: int| 0 <= i < j < list.len() ==> list[i] < list[j],
        forall|i: int| 0 <= i < list.len() ==> list[i] < n,
    ensures
        list.len() <= n,
{
    assert forall|i: int| 0 <= i < list.len() implies list[i] >= i by {
        lemma_rising_at_least(list, i);
    }
    if list.len() > 0 {
        assert(list[list.len() - 1] >= list.len() - 1);
    }
}

proof fn lemma_rising_at_least(list: Seq<usize>, i: int)
    requires
        forall|a: int, b: int| 0 <= a < b < list.len() ==> list[a] < list[b],
        0 <= i < list.len(),
    ensures
        list[i] >= i,
    decreases i,
{
    if i > 0 {
        lemma_rising_at_least(list, i - 1);
    }
}

/// If `b` may lie on `side` of `a`, then `a` may lie on the facing side of
/// `b`, and the other way round.
pub proof fn lemma_compatible_symmetric(
    a: Seq<TileType>,
    b: Seq<TileType>,
    size: int,
    side: Direction,
)
    ensures
        compatible(a, b, size, side) == compatible(b, a, size, side.spec_opposite()),
{
    let mine = side_exits(a, size, side);
    let theirs = side_exits(b, size, side.spec_opposite());
    assert(side.spec_opposite().spec_opposite() == side);
    if exits_meet(mine, theirs) {
        let slot = choose|slot: int|
            0 <= slot < mine.len() && slot < theirs.len() && mine[slot] && theirs[slot];
        assert(0 <= slot < theirs.len() && slot < mine.len() && theirs[slot] && mine[slot]);
    }
    if exits_meet(theirs, mine) {
        let slot = choose|slot: int|
            0 <= slot < theirs.len() && slot < mine.len() && theirs[slot] && mine[slot];
        assert(0 <= slot < mine.len() && slot < theirs.len() && mine[slot] && theirs[slot]);
    }
}

impl MapChunk {
    /// Whether the entry holds `pattern`, its exits on each side and
    /// whether it has any.
    pub open spec fn describes(&self, pattern: Seq<TileType>, size: int) -> bool {
        &&& self.pattern@ == pattern
        &&& pattern.len() == size * size
        &&& self.has_exits == pattern_has_exits(pattern, size)
        &&& forall|i: int|
            0 <= i < 4 ==> (#[trigger] self.exits[i])@ == side_exits(pattern, size, side_of(i))
    }
}

/// The index, within a pattern of side `chunk_size`, of column `x` in row
/// `y`.
pub open spec fn spec_tile_idx(chunk_size: int, x: int, y: int) -> int {
    y * chunk_size + x
}

pub fn tile_idx_in_chunks(chunk_size: i32, x: i32, y: i32) -> (idx: usize)
    requires
        0 <= x,
        0 <= y,
        0 <= chunk_size,
        y * chunk_size + x <= i32::MAX,
    ensures
        idx == spec_tile_idx(chunk_size as int, x as int, y as int),
{
    assert(0 <= y * chunk_size) by (nonlinear_arith)
        requires
            0 <= y,
            0 <= chunk_size,
    ;
    ((y * chunk_size) + x) as usize
}

/// The four sides of a pattern.
#[derive(PartialEq, Eq, Clone, Copy, Debug, Structural)]
pub enum Direction {
    North,
    South,
    West,
    East,
}

pub open spec fn all_directions() -> Seq<Direction> {
    seq![Direction::North, Direction::South, Direction::East, Direction::West]
}

impl Direction {
    /// The place of the side in the per-side lists of a catalog entry.
    pub open spec fn spec_ordinal(self) -> int {
        match self {
            Direction::North => 0,
            Direction::South => 1,
            Direction::West => 2,
            Direction::East => 3,
        }
    }

    /// The side facing this one.
    pub open spec fn spec_opposite(self) -> Direction {
        match self {
            Direction::North => Direction::South,
            Direction::South => Direction::North,
            Direction::West => Direction::East,
            Direction::East => Direction::West,
        }
    }

    /// The index, within a pattern, of the `x`-th cell along this side,
    /// counted from the left or from the top.
    pub open spec fn spec_index(self, chunk_size: int, x: int) -> int {
        match self {
            Direction::North => spec_tile_idx(chunk_size, x, 0),
            Direction::South => spec_tile_idx(chunk_size, x, chunk_size - 1),
            Direction::West => spec_tile_idx(chunk_size, 0, x),
            Direction::East => spec_tile_idx(chunk_size, chunk_size - 1, x),
        }
    }

    pub fn ordinal(&self) -> (i: usize)
        ensures
            i == self.spec_ordinal(),
            i < 4,
            side_of(i as int) == *self,
    {
        match self {
            Direction::North => 0,
            Direction::South => 1,
            Direction::West => 2,
            Direction::East => 3,
        }
    }

    pub fn get_index(&self, chunk_size: i32, x: i32) -> (idx: usize)
        requires
            0 <= x < chunk_size,
            chunk_size * chunk_size <= i32::MAX,
        ensures
            idx == self.spec_index(chunk_size as int, x as int),
            idx < chunk_size * chunk_size,
    {
        proof {
            assert((chunk_size - 1) * chunk_size + chunk_size == chunk_size * chunk_size)
                by (nonlinear_arith);
            assert(0 <= x * chunk_size <= (chunk_size - 1) * chunk_size) by (nonlinear_arith)
                requires
                    0 <= x < chunk_size,
            ;
        }
        match self {
            Direction::North => tile_idx_in_chunks(chunk_size, x, 0),
            Direction::South => tile_idx_in_chunks(chunk_size, x, chunk_size - 1),
            Direction::West => tile_idx_in_chunks(chunk_size, 0, x),
            Direction::East => tile_idx_in_chunks(chunk_size, chunk_size - 1, x),
        }
    }

    /// The index, on the map, of the `x`-th cell along this side of
    /// `chunk`.
    pub fn map_index(&self, map: &TileMap, chunk: &Chunk, x: i32) -> (idx: usize)
        requires
            map.wf(),
            chunk.fits(map),
            0 <= x < chunk.size,
        ensures
            idx < map.tiles@.len(),
            idx == match *self {
                Direction::North => crate::tile_map::cell_index(
                    map.width as int,
                    chunk.start.x + x,
                    chunk.start.y as int,
                ),
                Direction::South => crate::tile_map::cell_index(
                    map.width as int,
                    chunk.start.x + x,
                    chunk.start.y + chunk.size - 1,
                ),
                Direction::West => crate::tile_map::cell_index(
                    map.width as int,
                    chunk.start.x as int,
                    chunk.start.y + x,
                ),
                Direction::East => crate::tile_map::cell_index(
                    map.width as int,
                    chunk.start.x + chunk.size - 1,
                    chunk.start.y + x,
                ),
            },
    {
        match self {
            Direction::North => map.xy_idx(chunk.start.x + x, chunk.start.y),
            Direction::South => map.xy_idx(chunk.start.x + x, chunk.start.y + chunk.size - 1),
            Direction::West => map.xy_idx(chunk.start.x, chunk.start.y + x),
            Direction::East => map.xy_idx(chunk.start.x + chunk.size - 1, chunk.start.y + x),
        }
    }

    pub fn opposite(&self) -> (d: Direction)
        ensures
            d == self.spec_opposite(),
    {
        match self {
            Direction::North => Direction::South,
            Direction::South => Direction::North,
            Direction::West => Direction::East,
            Direction::East => Direction::West,
        }
    }

    /// The indices of the `x`-th cell along each side, in the order of
    /// `iterator`.
    pub fn get_indices(chunk_size: i32, x: i32) -> (indices: Vec<usize>)
        requires
            0 <= x < chunk_size,
            chunk_size * chunk_size <= i32::MAX,
        ensures
            indices@.len() == 4,
            forall|i: int|
                0 <= i < 4 ==> indices@[i] == all_directions()[i].spec_index(
                    chunk_size as int,
                    x as int,
                ),
    {
        let mut indices: Vec<usize> = Vec::new();
        indices.push(Direction::North.get_index(chunk_size, x));
        indices.push(Direction::South.get_index(chunk_size, x));
        indices.push(Direction::East.get_index(chunk_size, x));
        indices.push(Direction::West.get_index(chunk_size, x));
        indices
    }

    /// The four sides: north, south, east, west.
    pub fn iterator() -> (sides: Vec<Direction>)
        ensures
            sides@ == all_directions(),
    {
        let mut sides: Vec<Direction> = Vec::new();
        sides.push(Direction::North);
        sides.push(Direction::South);
        sides.push(Direction::East);
        sides.push(Direction::West);
        proof {
            assert(sides@ =~= all_directions());
        }
        sides
    }
}

} // verus!
