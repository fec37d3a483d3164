use crate::position::Position;
use crate::tile_map::{
    cell_index, col_of, lemma_cell_unique, replaced, row_of, TileMap, TileType, MAX_DIMENSION,
};
use crate::waveform_collapse::common::{
    any_exit, compatible, exits_meet, is_catalog, is_compatible_list, side_exits, side_of,
    Direction, MapChunk,
};
use vstd::prelude::*;

verus! {

/// A square region of the map: its side, its first cell, and the cell past
/// its last column and row.
#[derive(PartialEq, Eq, Clone, Copy, Debug, Structural)]
pub struct Chunk {
    pub size: i32,
    pub start: Position,
    pub end: Position,
}

impl Chunk {
    /// Whether the region's corners agree with its size.
    pub open spec fn wf(&self) -> bool {
        &&& 0 <= self.size
        &&& self.end.x == self.start.x + self.size
        &&& self.end.y == self.start.y + self.size
    }

    /// Whether the region lies on `map`.
    pub open spec fn fits(&self, map: &TileMap) -> bool {
        &&& self.wf()
        &&& 0 <= self.start.x
        &&& 0 <= self.start.y
        &&& self.end.x <= map.width
        &&& self.end.y <= map.height
    }

    /// The region of side `size` in column `x` and row `y` of the grid of
    /// such regions.
    pub fn new(size: i32, x: i32, y: i32) -> (chunk: Chunk)
        requires
            0 <= size <= MAX_DIMENSION,
            0 <= x < MAX_DIMENSION,
            0 <= y < MAX_DIMENSION,
        ensures
            chunk.wf(),
            chunk.size == size,
            chunk.start.x == x * size,
            chunk.start.y == y * size,
    {
        proof {
            assert(0 <= x * size <= MAX_DIMENSION * MAX_DIMENSION && 0 <= (x + 1) * size
                <= MAX_DIMENSION * MAX_DIMENSION && (x + 1) * size == x * size + size)
                by (nonlinear_arith)
                requires
                    0 <= size <= MAX_DIMENSION,
                    0 <= x < MAX_DIMENSION,
            ;
            assert(0 <= y * size <= MAX_DIMENSION * MAX_DIMENSION && 0 <= (y + 1) * size
                <= MAX_DIMENSION * MAX_DIMENSION && (y + 1) * size == y * size + size)
                by (nonlinear_arith)
                requires
                    0 <= size <= MAX_DIMENSION,
                    0 <= y < MAX_DIMENSION,
            ;
        }
        Chunk {
            size,
            start: Position { x: x * size, y: y * size },
            end: Position { x: (x + 1) * size, y: (y + 1) * size },
        }
    }

    /// The region of side `size` whose first cell is `start`.
    pub fn presized(size: i32, start: Position) -> (chunk: Chunk)
        requires
            0 <= size,
            start.x + size <= i32::MAX,
            start.y + size <= i32::MAX,
        ensures
            chunk.wf(),
            chunk.size == size,
            chunk.start == start,
    {
        Chunk { size, start, end: Position { x: start.x + size, y: start.y + size } }
    }

    /// The cells of the region, row by row.
    pub fn positions(&self) -> (cells: Vec<Position>)
        requires
            self.wf(),
            self.size <= MAX_DIMENSION,
        ensures
            cells@.len() == self.size * self.size,
            forall|j: int|
                0 <= j < cells@.len() ==> #[trigger] cells@[j] == (Position {
                    x: (self.start.x + j % (self.size as int)) as i32,
                    y: (self.start.y + j / (self.size as int)) as i32,
                }),
    {
        let mut cells: Vec<Position> = Vec::new();
        let mut y: i32 = self.start.y;
        while y < self.end.y
            invariant
                self.wf(),
                self.start.y <= y <= self.end.y,
                cells@.len() == (y - self.start.y) * self.size,
                forall|j: int|
                    0 <= j < cells@.len() ==> #[trigger] cells@[j] == (Position {
                        x: (self.start.x + j % (self.size as int)) as i32,
                        y: (self.start.y + j / (self.size as int)) as i32,
                    }),
            decreases self.end.y - y,
        {
            let mut x: i32 = self.start.x;
            while x < self.end.x
                invariant
                    self.wf(),
                    self.start.y <= y < self.end.y,
                    self.start.x <= x <= self.end.x,
                    cells@.len() == (y - self.start.y) * self.size + (x - self.start.x),
                    forall|j: int|
                        0 <= j < cells@.len() ==> #[trigger] cells@[j] == (Position {
                            x: (self.start.x + j % (self.size as int)) as i32,
                            y: (self.start.y + j / (self.size as int)) as i32,
                        }),
                decreases self.end.x - x,
            {
                proof {
                    let j = (y - self.start.y) * self.size + (x - self.start.x);
                    vstd::arithmetic::div_mod::lemma_fundamental_div_mod_converse(
                        j,
                        self.size as int,
                        (y - self.start.y) as int,
                        (x - self.start.x) as int,
                    );
                }
                cells.push(Position { x, y });
                x += 1;
            }
            proof {
                assert((y - self.start.y) * self.size + self.size == (y + 1 - self.start.y)
                    * self.size) by (nonlinear_arith);
            }
            y += 1;
        }
        cells
    }
}

/// The tiles of `chunk` on a map `width` wide, row by row, read in
/// mirror image along the rows or the columns where asked.
pub open spec fn chunk_pattern(
    tiles: Seq<TileType>,
    width: int,
    chunk: Chunk,
    flip_x: bool,
    flip_y: bool,
) -> Seq<TileType> {
    Seq::new(
        (chunk.size * chunk.size) as nat,
        |j: int|
            {
                let px = j % (chunk.size as int);
                let py = j / (chunk.size as int);
                let sx = if flip_x {
                    chunk.size - 1 - px
                } else {
                    px
                };
                let sy = if flip_y {
                    chunk.size - 1 - py
                } else {
                    py
                };
                tiles[cell_index(width, chunk.start.x + sx, chunk.start.y + sy)]
            },
    )
}

fn read_pattern(map: &TileMap, chunk: Chunk, flip_x: bool, flip_y: bool) -> (tiles: Vec<TileType>)
    requires
        map.wf(),
        chunk.fits(map),
    ensures
        tiles@ == chunk_pattern(map.tiles@, map.width as int, chunk, flip_x, flip_y),
{
    let mut tiles: Vec<TileType> = Vec::new();
    let size = chunk.size;
    let mut py: i32 = 0;
    while py < size
        invariant
            map.wf(),
            chunk.fits(map),
            size == chunk.size,
            0 <= py <= size,
            tiles@.len() == py * size,
            py * size <= size * size,
            forall|j: int|
                0 <= j < tiles@.len() ==> tiles@[j] == chunk_pattern(
                    map.tiles@,
                    map.width as int,
                    chunk,
                    flip_x,
                    flip_y,
                )[j],
        decreases size - py,
    {
        proof {
            assert(py * size + size <= size * size) by (nonlinear_arith)
                requires
                    0 <= py < size,
            ;
        }
        let mut px: i32 = 0;
        while px < size
            invariant
                map.wf(),
                chunk.fits(map),
                size == chunk.size,
                0 <= py < size,
                0 <= px <= size,
                tiles@.len() == py * size + px,
                py * size + size <= size * size,
                forall|j: int|
                    0 <= j < tiles@.len() ==> tiles@[j] == chunk_pattern(
                        map.tiles@,
                        map.width as int,
                        chunk,
                        flip_x,
                        flip_y,
                    )[j],
            decreases size - px,
        {
            proof {
                vstd::arithmetic::div_mod::lemma_fundamental_div_mod_converse(
                    py * size + px,
                    size as int,
                    py as int,
                    px as int,
                );
            }
            let sx = if flip_x {
                size - 1 - px
            } else {
                px
            };
            let sy = if flip_y {
                size - 1 - py
            } else {
                py
            };
            let idx = map.xy_idx(chunk.start.x + sx, chunk.start.y + sy);
            tiles.push(map.tiles[idx]);
            px += 1;
        }
        proof {
            assert(py * size + size == (py + 1) * size) by (nonlinear_arith);
        }
        py += 1;
    }
    proof {
        assert(size * size == py * size);
        assert(tiles@ =~= chunk_pattern(map.tiles@, map.width as int, chunk, flip_x, flip_y));
    }
    tiles
}

/// A copy of `tiles`.
pub fn copy_tiles(tiles: &Vec<TileType>) -> (copy: Vec<TileType>)
    ensures
        copy@ == tiles@,
{
    let mut copy: Vec<TileType> = Vec::new();
    let mut i: usize = 0;
    while i < tiles.len()
        invariant
            i <= tiles@.len(),
            copy@ == tiles@.subrange(0, i as int),
        decreases tiles@.len() - i,
    {
        copy.push(tiles[i]);
        proof {
            assert(copy@ =~= tiles@.subrange(0, i + 1));
        }
        i += 1;
    }
    proof {
        assert(copy@ =~= tiles@);
    }
    copy
}

/// A pattern being read off a region of the map.
pub struct BuildPattern {
    pub tiles: Vec<TileType>,
    pub chunk: Chunk,
}

impl BuildPattern {
    pub fn new(chunk: Chunk) -> (p: BuildPattern)
        ensures
            p.chunk == chunk,
            p.tiles@.len() == 0,
    {
        BuildPattern { tiles: Vec::new(), chunk }
    }

    pub fn pattern(&self) -> (tiles: Vec<TileType>)
        ensures
            tiles@ == self.tiles@,
    {
        copy_tiles(&self.tiles)
    }

    pub fn add_tile(&mut self, tile: TileType)
        ensures
            final(self).chunk == old(self).chunk,
            final(self).tiles@ == old(self).tiles@.push(tile),
    {
        self.tiles.push(tile);
    }

    /// Appends the tiles of the region as they lie on the map.
    pub fn add_tiles(&mut self, map: &TileMap)
        requires
            map.wf(),
            old(self).chunk.fits(map),
        ensures
            final(self).chunk == old(self).chunk,
            final(self).tiles@ == old(self).tiles@ + chunk_pattern(
                map.tiles@,
                map.width as int,
                old(self).chunk,
                false,
                false,
            ),
    {
        let mut read = read_pattern(map, self.chunk, false, false);
        self.tiles.append(&mut read);
    }

    /// The region's tiles with each row read from right to left.
    pub fn flip_horizontal(&self, map: &TileMap) -> (flipped: BuildPattern)
        requires
            map.wf(),
            self.chunk.fits(map),
        ensures
            flipped.chunk == self.chunk,
            flipped.tiles@ == chunk_pattern(map.tiles@, map.width as int, self.chunk, true, false),
    {
        BuildPattern { tiles: read_pattern(map, self.chunk, true, false), chunk: self.chunk }
    }

    /// The region's tiles with the rows read from the bottom up.
    pub fn flip_vertical(&self, map: &TileMap) -> (flipped: BuildPattern)
        requires
            map.wf(),
            self.chunk.fits(map),
        ensures
            flipped.chunk == self.chunk,
            flipped.tiles@ == chunk_pattern(map.tiles@, map.width as int, self.chunk, false, true),
    {
        BuildPattern { tiles: read_pattern(map, self.chunk, false, true), chunk: self.chunk }
    }

    /// The region's tiles turned by half a turn.
    pub fn flip_both(&self, map: &TileMap) -> (flipped: BuildPattern)
        requires
            map.wf(),
            self.chunk.fits(map),
        ensures
            flipped.chunk == self.chunk,
            flipped.tiles@ == chunk_pattern(map.tiles@, map.width as int, self.chunk, true, true),
    {
        BuildPattern { tiles: read_pattern(map, self.chunk, true, true), chunk: self.chunk }
    }
}

/// The region in column `cx` and row `cy` of the grid of regions of side
/// `size`.
pub open spec fn chunk_at(size: int, cx: int, cy: int) -> Chunk {
    Chunk {
        size: size as i32,
        start: Position { x: (cx * size) as i32, y: (cy * size) as i32 },
        end: Position { x: (cx * size + size) as i32, y: (cy * size + size) as i32 },
    }
}

/// The patterns read off the map before any is dropped as a repetition:
/// region by region, row by row; with flipping, each region gives its
/// pattern and then its three mirror images.
pub open spec fn raw_pattern(
    tiles: Seq<TileType>,
    width: int,
    chunk_size: int,
    include_flipping: bool,
    k: int,
) -> Seq<TileType> {
    let chunks_x = width / chunk_size;
    let (n, variant) = if include_flipping {
        (k / 4, k % 4)
    } else {
        (k, 0int)
    };
    chunk_pattern(
        tiles,
        width,
        chunk_at(chunk_size, n % chunks_x, n / chunks_x),
        variant == 1 || variant == 3,
        variant == 2 || variant == 3,
    )
}

/// How many patterns the map gives before any is dropped.
pub open spec fn raw_pattern_count(
    width: int,
    height: int,
    chunk_size: int,
    include_flipping: bool,
) -> int {
    (width / chunk_size) * (height / chunk_size) * if include_flipping {
        4int
    } else {
        1int
    }
}

/// The first `n` patterns of `raw`, each once only, where it first occurs.
pub open spec fn distinct_prefix(raw: Seq<Seq<TileType>>, n: int) -> Seq<Seq<TileType>>
    decreases n,
{
    if n <= 0 {
        Seq::empty()
    } else {
        let before = distinct_prefix(raw, n - 1);
        if before.contains(raw[n - 1]) {
            before
        } else {
            before.push(raw[n - 1])
        }
    }
}

/// Of the first `n` patterns at least one is kept, where there is one,
/// and no more than `n`.
pub proof fn lemma_distinct_len(raw: Seq<Seq<TileType>>, n: int)
    requires
        0 <= n,
    ensures
        distinct_prefix(raw, n).len() <= n,
        n >= 1 ==> distinct_prefix(raw, n).len() >= 1,
    decreases n,
{
    if n > 0 {
        lemma_distinct_len(raw, n - 1);
    }
}

/// The first `n` patterns of `raw` as they are kept: all of them, or each
/// once only.
pub open spec fn kept_patterns(raw: Seq<Seq<TileType>>, n: int, dedupe: bool) -> Seq<
    Seq<TileType>,
> {
    if dedupe {
        distinct_prefix(raw, n)
    } else {
        raw.subrange(0, n)
    }
}

/// The tiles of each pattern of a list.
pub open spec fn pattern_views(patterns: Seq<Vec<TileType>>) -> Seq<Seq<TileType>> {
    Seq::new(patterns.len(), |i: int| patterns[i]@)
}

/// All the patterns that the map gives, before any is dropped.
pub open spec fn raw_patterns(
    tiles: Seq<TileType>,
    width: int,
    height: int,
    chunk_size: int,
    include_flipping: bool,
) -> Seq<Seq<TileType>> {
    Seq::new(
        raw_pattern_count(width, height, chunk_size, include_flipping) as nat,
        |k: int| raw_pattern(tiles, width, chunk_size, include_flipping, k),
    )
}

fn same_tiles(a: &Vec<TileType>, b: &Vec<TileType>) -> (same: bool)
    ensures
        same == (a@ == b@),
{
    if a.len() != b.len() {
        return false;
    }
    let mut i: usize = 0;
    while i < a.len()
        invariant
            a@.len() == b@.len(),
            i <= a@.len(),
            forall|j: int| 0 <= j < i ==> a@[j] == b@[j],
        decreases a@.len() - i,
    {
        if a[i] != b[i] {
            return false;
        }
        i += 1;
    }
    proof {
        assert(a@ =~= b@);
    }
    true
}

fn holds_pattern(patterns: &Vec<Vec<TileType>>, pattern: &Vec<TileType>) -> (found: bool)
    ensures
        found == (exists|i: int| 0 <= i < patterns@.len() && patterns@[i]@ == pattern@),
{
    let mut i: usize = 0;
    while i < patterns.len()
        invariant
            i <= patterns@.len(),
            forall|j: int| 0 <= j < i ==> patterns@[j]@ != pattern@,
        decreases patterns@.len() - i,
    {
        if same_tiles(&patterns[i], pattern) {
            return true;
        }
        i += 1;
    }
    false
}

/// Keeps `pattern`, the next of `raw`, unless repetitions are dropped and
/// it is one.
fn keep_pattern(
    patterns: &mut Vec<Vec<TileType>>,
    pattern: Vec<TileType>,
    dedupe: bool,
    Ghost(raw): Ghost<Seq<Seq<TileType>>>,
    Ghost(done): Ghost<int>,
)
    requires
        0 <= done < raw.len(),
        pattern@ == raw[done],
        pattern_views(old(patterns)@) == kept_patterns(raw, done, dedupe),
    ensures
        pattern_views(final(patterns)@) == kept_patterns(raw, done + 1, dedupe),
        final(patterns)@ == old(patterns)@ || final(patterns)@ == old(patterns)@.push(pattern),
{
    let ghost before = pattern_views(patterns@);
    let repeated = dedupe && holds_pattern(patterns, &pattern);
    proof {
        if dedupe {
            if before.contains(pattern@) {
                let i = choose|i: int| 0 <= i < before.len() && before[i] == pattern@;
                assert(patterns@[i]@ == pattern@);
            }
            if exists|i: int| 0 <= i < patterns@.len() && patterns@[i]@ == pattern@ {
                let i = choose|i: int| 0 <= i < patterns@.len() && patterns@[i]@ == pattern@;
                assert(before[i] == pattern@);
            }
        }
    }
    if !repeated {
        patterns.push(pattern);
        proof {
            assert(pattern_views(patterns@) =~= before.push(raw[done]));
            if !dedupe {
                assert(raw.subrange(0, done + 1) =~= raw.subrange(0, done).push(raw[done]));
            }
        }
    }
}

/// The region in column `cx` and row `cy` lies on the map, and the
/// patterns it gives are those numbered from `4 * n` or from `n`, `n` being
/// its place among the regions.
proof fn lemma_chunk_place(width: int, height: int, size: int, cx: int, cy: int)
    requires
        1 <= size,
        1 <= width,
        1 <= height,
        0 <= cx < width / size,
        0 <= cy < height / size,
    ensures
        0 <= cx * size,
        cx * size + size <= width,
        0 <= cy * size,
        cy * size + size <= height,
        0 <= cy * (width / size) + cx < (width / size) * (height / size),
        (cy * (width / size) + cx) % (width / size) == cx,
        (cy * (width / size) + cx) / (width / size) == cy,
{
    let chunks_x = width / size;
    let chunks_y = height / size;
    vstd::arithmetic::div_mod::lemma_fundamental_div_mod(width, size);
    vstd::arithmetic::div_mod::lemma_fundamental_div_mod(height, size);
    vstd::arithmetic::div_mod::lemma_mod_bound(width, size);
    vstd::arithmetic::div_mod::lemma_mod_bound(height, size);
    assert(0 <= cx * size && cx * size + size <= size * chunks_x) by (nonlinear_arith)
        requires
            0 <= cx < chunks_x,
            1 <= size,
    ;
    assert(0 <= cy * size && cy * size + size <= size * chunks_y) by (nonlinear_arith)
        requires
            0 <= cy < chunks_y,
            1 <= size,
    ;
    crate::tile_map::lemma_cell_index(chunks_x, chunks_y, cx, cy);
    assert(chunks_x * chunks_y == crate::tile_map::cell_count(chunks_x, chunks_y));
}

/// Reads the patterns of side `chunk_size` off the map, region by region;
/// with `include_flipping` also the three mirror images of each; with
/// `dedupe` every pattern once only, where it first occurs.
pub fn build_patterns(map: &TileMap, chunk_size: i32, include_flipping: bool,
    dedupe: bool) -> (patterns:
    Vec<Vec<TileType>>)
    requires
        map.wf(),
        1 <= chunk_size,
    ensures
        pattern_views(patterns@) == kept_patterns(
            raw_patterns(
                map.tiles@,
                map.width as int,
                map.height as int,
                chunk_size as int,
                include_flipping,
            ),
            raw_pattern_count(
                map.width as int,
                map.height as int,
                chunk_size as int,
                include_flipping,
            ),
            dedupe,
        ),
        forall|i: int|
            0 <= i < patterns@.len() ==> (#[trigger] patterns@[i])@.len() == chunk_size
                * chunk_size,
{
    let chunks_x = map.width / chunk_size;
    let chunks_y = map.height / chunk_size;
    let mut patterns: Vec<Vec<TileType>> = Vec::new();
    let ghost w = map.width as int;
    let ghost h = map.height as int;
    let ghost size = chunk_size as int;
    let ghost per: int = if include_flipping {
        4
    } else {
        1
    };
    let ghost total = raw_pattern_count(w, h, size, include_flipping);
    let ghost raw = raw_patterns(map.tiles@, w, h, size, include_flipping);
    proof {
        assert(pattern_views(patterns@) =~= kept_patterns(raw, 0, dedupe));
        assert(0 <= chunks_x * chunks_y) by (nonlinear_arith)
            requires
                0 <= chunks_x,
                0 <= chunks_y,
        ;
    }
    let mut cy: i32 = 0;
    while cy < chunks_y
        invariant
            map.wf(),
            1 <= chunk_size,
            w == map.width,
            h == map.height,
            size == chunk_size,
            chunks_x == w / size,
            chunks_y == h / size,
            per == if include_flipping {
                4int
            } else {
                1int
            },
            total == chunks_x * chunks_y * per,
            raw == raw_patterns(map.tiles@, w, h, size, include_flipping),
            raw.len() == total,
            0 <= cy <= chunks_y,
            pattern_views(patterns@) == kept_patterns(raw, cy * chunks_x * per, dedupe),
            forall|i: int|
                0 <= i < patterns@.len() ==> (#[trigger] patterns@[i])@.len() == chunk_size
                    * chunk_size,
        decreases chunks_y - cy,
    {
        let mut cx: i32 = 0;
        while cx < chunks_x
            invariant
                map.wf(),
                1 <= chunk_size,
                w == map.width,
                h == map.height,
                size == chunk_size,
                chunks_x == w / size,
                chunks_y == h / size,
                per == if include_flipping {
                    4int
                } else {
                    1int
                },
                total == chunks_x * chunks_y * per,
                raw == raw_patterns(map.tiles@, w, h, size, include_flipping),
                raw.len() == total,
                0 <= cy < chunks_y,
                0 <= cx <= chunks_x,
                pattern_views(patterns@) == kept_patterns(
                    raw,
                    (cy * chunks_x + cx) * per,
                    dedupe,
                ),
                forall|i: int|
                    0 <= i < patterns@.len() ==> (#[trigger] patterns@[i])@.len() == chunk_size
                        * chunk_size,
            decreases chunks_x - cx,
        {
            let ghost n = cy * chunks_x + cx;
            proof {
                lemma_chunk_place(w, h, size, cx as int, cy as int);
                assert(n * per + per <= chunks_x * chunks_y * per) by (nonlinear_arith)
                    requires
                        0 <= n < chunks_x * chunks_y,
                        1 <= per,
                ;
                assert(0 <= n * per) by (nonlinear_arith)
                    requires
                        0 <= n,
                        1 <= per,
                ;
                if include_flipping {
                    assert((n * 4) / 4 == n && (n * 4) % 4 == 0);
                    assert((n * 4 + 1) / 4 == n && (n * 4 + 1) % 4 == 1);
                    assert((n * 4 + 2) / 4 == n && (n * 4 + 2) % 4 == 2);
                    assert((n * 4 + 3) / 4 == n && (n * 4 + 3) % 4 == 3);
                } else {
                    assert(n * 1 == n);
                }
            }
            let chunk = Chunk::new(chunk_size, cx, cy);
            assert(chunk == chunk_at(size, cx as int, cy as int));
            let mut pattern: BuildPattern = BuildPattern::new(chunk);
            pattern.add_tiles(map);
            proof {
                assert(pattern.tiles@ =~= chunk_pattern(map.tiles@, w, chunk, false, false));
                assert(chunk_pattern(map.tiles@, w, chunk, false, false).len() == size * size);
            }
            keep_pattern(&mut patterns, pattern.pattern(), dedupe, Ghost(raw), Ghost(n * per));
            if include_flipping {
                keep_pattern(
                    &mut patterns,
                    pattern.flip_horizontal(map).pattern(),
                    dedupe,
                    Ghost(raw),
                    Ghost(n * per + 1),
                );
                keep_pattern(
                    &mut patterns,
                    pattern.flip_vertical(map).pattern(),
                    dedupe,
                    Ghost(raw),
                    Ghost(n * per + 2),
                );
                keep_pattern(
                    &mut patterns,
                    pattern.flip_both(map).pattern(),
                    dedupe,
                    Ghost(raw),
                    Ghost(n * per + 3),
                );
            }
            proof {
                assert((n + 1) * per == n * per + per) by (nonlinear_arith);
            }
            cx += 1;
        }
        proof {
            assert((cy * chunks_x + chunks_x) * per == (cy + 1) * chunks_x * per)
                by (nonlinear_arith);
        }
        cy += 1;
    }
    proof {
        assert(chunks_y * chunks_x * per == chunks_x * chunks_y * per) by (nonlinear_arith);
    }
    patterns
}

fn exits_on(pattern: &Vec<TileType>, chunk_size: i32, side: Direction) -> (exits: Vec<bool>)
    requires
        1 <= chunk_size <= MAX_DIMENSION,
        pattern@.len() == chunk_size * chunk_size,
    ensures
        exits@ == side_exits(pattern@, chunk_size as int, side),
{
    assert(chunk_size * chunk_size <= MAX_DIMENSION * MAX_DIMENSION) by (nonlinear_arith)
        requires
            1 <= chunk_size <= MAX_DIMENSION,
    ;
    let mut exits: Vec<bool> = Vec::new();
    let mut x: i32 = 0;
    while x < chunk_size
        invariant
            1 <= chunk_size <= MAX_DIMENSION,
            chunk_size * chunk_size <= i32::MAX,
            pattern@.len() == chunk_size * chunk_size,
            0 <= x <= chunk_size,
            exits@.len() == x,
            forall|i: int|
                0 <= i < x ==> exits@[i] == side_exits(pattern@, chunk_size as int, side)[i],
        decreases chunk_size - x,
    {
        let tile_idx = side.get_index(chunk_size, x);
        exits.push(pattern[tile_idx] == TileType::Floor);
        x += 1;
    }
    proof {
        assert(exits@ =~= side_exits(pattern@, chunk_size as int, side));
    }
    exits
}

fn has_any(exits: &Vec<bool>) -> (any: bool)
    ensures
        any == any_exit(exits@),
{
    let mut i: usize = 0;
    while i < exits.len()
        invariant
            i <= exits@.len(),
            forall|j: int| 0 <= j < i ==> !exits@[j],
        decreases exits@.len() - i,
    {
        if exits[i] {
            return true;
        }
        i += 1;
    }
    false
}

fn it_fits(mine: &Vec<bool>, theirs: &Vec<bool>) -> (fits: bool)
    ensures
        fits == exits_meet(mine@, theirs@),
{
    let mut slot: usize = 0;
    while slot < mine.len() && slot < theirs.len()
        invariant
            forall|j: int| 0 <= j < slot ==> !(mine@[j] && theirs@[j]),
        decreases mine@.len() - slot,
    {
        if mine[slot] && theirs[slot] {
            return true;
        }
        slot += 1;
    }
    false
}

fn copy_flags(flags: &Vec<bool>) -> (copy: Vec<bool>)
    ensures
        copy@ == flags@,
{
    let mut copy: Vec<bool> = Vec::new();
    let mut i: usize = 0;
    while i < flags.len()
        invariant
            i <= flags@.len(),
            copy@ == flags@.subrange(0, i as int),
        decreases flags@.len() - i,
    {
        copy.push(flags[i]);
        proof {
            assert(copy@ =~= flags@.subrange(0, i + 1));
        }
        i += 1;
    }
    proof {
        assert(copy@ =~= flags@);
    }
    copy
}

/// The entry of one pattern, before anything is known of its neighbours.
fn describe(pattern: &Vec<TileType>, chunk_size: i32) -> (chunk: MapChunk)
    requires
        1 <= chunk_size <= MAX_DIMENSION,
        pattern@.len() == chunk_size * chunk_size,
    ensures
        chunk.describes(pattern@, chunk_size as int),
{
    let north = exits_on(pattern, chunk_size, Direction::North);
    let south = exits_on(pattern, chunk_size, Direction::South);
    let west = exits_on(pattern, chunk_size, Direction::West);
    let east = exits_on(pattern, chunk_size, Direction::East);
    let has_exits = has_any(&north) || has_any(&south) || has_any(&west) || has_any(&east);
    MapChunk {
        pattern: copy_tiles(pattern),
        exits: [north, south, west, east],
        has_exits,
        compatible_with: [Vec::new(), Vec::new(), Vec::new(), Vec::new()],
    }
}

/// The patterns that may lie next to pattern `k` on `side`.
fn neighbours_on(drafts: &Vec<MapChunk>, k: usize, side: Direction, Ghost(patterns): Ghost<
    Seq<Seq<TileType>>,
>, Ghost(size): Ghost<int>) -> (list: Vec<usize>)
    requires
        k < drafts@.len(),
        drafts@.len() == patterns.len(),
        forall|j: int| 0 <= j < drafts@.len()
            ==> (#[trigger] drafts@[j]).describes(patterns[j], size),
    ensures
        is_compatible_list(list@, patterns, k as int, size, side),
{
    let mut list: Vec<usize> = Vec::new();
    let here = side.ordinal();
    let there = side.opposite().ordinal();
    let mut j: usize = 0;
    while j < drafts.len()
        invariant
            k < drafts@.len(),
            drafts@.len() == patterns.len(),
            forall|i: int|
                0 <= i < drafts@.len() ==> (#[trigger] drafts@[i]).describes(patterns[i], size),
            here == side.spec_ordinal(),
            there == side.spec_opposite().spec_ordinal(),
            side_of(here as int) == side,
            side_of(there as int) == side.spec_opposite(),
            j <= drafts@.len(),
            forall|a: int, b: int| 0 <= a < b < list@.len() ==> list@[a] < list@[b],
            forall|i: int|
                0 <= i < list@.len() ==> (#[trigger] list@[i]) < j && compatible(
                    patterns[k as int],
                    patterns[list@[i] as int],
                    size,
                    side,
                ),
            forall|i: int|
                0 <= i < j && compatible(patterns[k as int], #[trigger] patterns[i], size, side)
                    ==> list@.contains(i as usize),
        decreases drafts@.len() - j,
    {
        assert(drafts@[k as int].describes(patterns[k as int], size));
        assert(drafts@[j as int].describes(patterns[j as int], size));
        let fits = !drafts[k].has_exits || !drafts[j].has_exits || it_fits(
            &drafts[k].exits[here],
            &drafts[j].exits[there],
        );
        let ghost before = list@;
        if fits {
            list.push(j);
        }
        proof {
            assert forall|i: int|
                0 <= i < j + 1 && compatible(
                    patterns[k as int],
                    #[trigger] patterns[i],
                    size,
                    side,
                ) implies list@.contains(i as usize) by {
                if i < j {
                    assert(before.contains(i as usize));
                    let at = choose|at: int| 0 <= at < before.len() && before[at] == i as usize;
                    assert(list@[at] == i as usize);
                } else {
                    assert(list@[list@.len() - 1] == j);
                }
            }
        }
        j += 1;
    }
    list
}

/// Builds the catalog of the patterns: for each its exits on every side,
/// and on every side the patterns that may lie next to it.
pub fn patterns_to_constraints(patterns: Vec<Vec<TileType>>, chunk_size: i32) -> (constraints: Vec<
    MapChunk,
>)
    requires
        1 <= chunk_size <= MAX_DIMENSION,
        forall|i: int|
            0 <= i < patterns@.len() ==> (#[trigger] patterns@[i])@.len() == chunk_size
                * chunk_size,
    ensures
        is_catalog(constraints@, pattern_views(patterns@), chunk_size as int),
{
    let ghost views = pattern_views(patterns@);
    let ghost size = chunk_size as int;
    let mut drafts: Vec<MapChunk> = Vec::new();
    let mut i: usize = 0;
    while i < patterns.len()
        invariant
            1 <= chunk_size <= MAX_DIMENSION,
            size == chunk_size,
            views == pattern_views(patterns@),
            forall|j: int|
                0 <= j < patterns@.len() ==> (#[trigger] patterns@[j])@.len() == chunk_size
                    * chunk_size,
            i <= patterns@.len(),
            drafts@.len() == i,
            forall|j: int| 0 <= j < i ==> (#[trigger] drafts@[j]).describes(views[j], size),
        decreases patterns@.len() - i,
    {
        assert(patterns@[i as int]@.len() == chunk_size * chunk_size);
        let draft = describe(&patterns[i], chunk_size);
        drafts.push(draft);
        i += 1;
    }
    let mut constraints: Vec<MapChunk> = Vec::new();
    let mut k: usize = 0;
    while k < drafts.len()
        invariant
            size == chunk_size,
            views == pattern_views(patterns@),
            drafts@.len() == views.len(),
            forall|j: int|
                0 <= j < drafts@.len() ==> (#[trigger] drafts@[j]).describes(views[j], size),
            k <= drafts@.len(),
            constraints@.len() == k,
            forall|j: int| 0 <= j < k ==> (#[trigger] constraints@[j]).describes(views[j], size),
            forall|j: int, side: int|
                0 <= j < k && 0 <= side < 4 ==> is_compatible_list(
                    #[trigger] constraints@[j].compatible_with[side]@,
                    views,
                    j,
                    size,
                    side_of(side),
                ),
        decreases drafts@.len() - k,
    {
        assert(drafts@[k as int].describes(views[k as int], size));
        let north = neighbours_on(&drafts, k, Direction::North, Ghost(views), Ghost(size));
        let south = neighbours_on(&drafts, k, Direction::South, Ghost(views), Ghost(size));
        let west = neighbours_on(&drafts, k, Direction::West, Ghost(views), Ghost(size));
        let east = neighbours_on(&drafts, k, Direction::East, Ghost(views), Ghost(size));
        let draft = &drafts[k];
        let entry = MapChunk {
            pattern: copy_tiles(&draft.pattern),
            exits: [
                copy_flags(&draft.exits[0]),
                copy_flags(&draft.exits[1]),
                copy_flags(&draft.exits[2]),
                copy_flags(&draft.exits[3]),
            ],
            has_exits: draft.has_exits,
            compatible_with: [north, south, west, east],
        };
        proof {
            assert(entry.describes(views[k as int], size));
            assert forall|side: int| 0 <= side < 4 implies is_compatible_list(
                #[trigger] entry.compatible_with[side]@,
                views,
                k as int,
                size,
                side_of(side),
            ) by {}
        }
        constraints.push(entry);
        k += 1;
    }
    constraints
}

/// Whether `(x, y)` is a cell of `chunk`.
pub open spec fn in_chunk(chunk: Chunk, x: int, y: int) -> bool {
    chunk.start.x <= x < chunk.end.x && chunk.start.y <= y < chunk.end.y
}

/// Whether `(x, y)` is one of the first `slots` cells along a side of
/// `chunk` on which the catalog entry has an exit.
pub open spec fn marks_exit(map_chunk: &MapChunk, chunk: Chunk, slots: int, x: int,
    y: int) -> bool {
    let ox = x - chunk.start.x;
    let oy = y - chunk.start.y;
    ||| (oy == 0 && 0 <= ox < slots && map_chunk.exits[0]@[ox])
    ||| (oy == chunk.size - 1 && 0 <= ox < slots && map_chunk.exits[1]@[ox])
    ||| (ox == 0 && 0 <= oy < slots && map_chunk.exits[2]@[oy])
    ||| (ox == chunk.size - 1 && 0 <= oy < slots && map_chunk.exits[3]@[oy])
}

/// The tile that the drawing of a catalog entry on `chunk` shows at
/// `(x, y)`: the down stairs on an exit, the pattern's tile elsewhere.
pub open spec fn drawn_tile(map_chunk: &MapChunk, chunk: Chunk, slots: int, x: int,
    y: int) -> TileType {
    if marks_exit(map_chunk, chunk, slots, x, y) {
        TileType::DownStairs
    } else {
        map_chunk.pattern@[(y - chunk.start.y) * chunk.size + (x - chunk.start.x)]
    }
}

/// Draws a catalog entry on the map for inspection: its tiles on the cells
/// of `chunk`, shown as visible, and the down stairs on each of its exits.
pub fn render_pattern_to_map(map: &mut TileMap, map_chunk: &MapChunk, chunk: Chunk)
    requires
        old(map).wf(),
        chunk.fits(old(map)),
        map_chunk.pattern@.len() == chunk.size * chunk.size,
        forall|i: int| 0 <= i < 4 ==> (#[trigger] map_chunk.exits[i])@.len() == chunk.size,
    ensures
        final(map).wf(),
        final(map).same_shape(old(map)),
        final(map).revealed_tiles@ == old(map).revealed_tiles@,
        final(map).blocked@ == old(map).blocked@,
        replaced(
            old(map).tiles@,
            final(map).tiles@,
            old(map).width as int,
            |x: int, y: int| in_chunk(chunk, x, y),
            |x: int, y: int| drawn_tile(map_chunk, chunk, chunk.size as int, x, y),
        ),
        final(map).visible_tiles@.len() == old(map).visible_tiles@.len(),
        forall|i: int|
            0 <= i < final(map).visible_tiles@.len() ==> #[trigger] final(map).visible_tiles@[i]
                == (old(map).visible_tiles@[i] || in_chunk(
                chunk,
                col_of(old(map).width as int, i),
                row_of(old(map).width as int, i),
            )),
{
    let ghost w = map.width as int;
    let ghost h = map.height as int;
    let size = chunk.size;
    let mut i: usize = 0;
    let mut y: i32 = chunk.start.y;
    proof {
        assert(size * size <= MAX_DIMENSION * MAX_DIMENSION) by (nonlinear_arith)
            requires
                0 <= size <= MAX_DIMENSION,
        ;
    }
    while y < chunk.end.y
        invariant
            map.wf(),
            map.same_shape(old(map)),
            map.revealed_tiles@ == old(map).revealed_tiles@,
            map.blocked@ == old(map).blocked@,
            w == map.width,
            h == map.height,
            chunk.fits(map),
            size == chunk.size,
            size * size <= 0x1000_0000,
            map_chunk.pattern@.len() == size * size,
            chunk.start.y <= y <= chunk.end.y,
            i == (y - chunk.start.y) * size,
            replaced(
                old(map).tiles@,
                map.tiles@,
                w,
                |cx: int, cy: int| in_chunk(chunk, cx, cy) && cy < y,
                |cx: int, cy: int| drawn_tile(map_chunk, chunk, 0, cx, cy),
            ),
            forall|k: int|
                0 <= k < map.visible_tiles@.len()
                    ==> #[trigger] map.visible_tiles@[k] == (old(map).visible_tiles@[k]
                    || (in_chunk(chunk, col_of(w, k), row_of(w, k)) && row_of(w, k)
                    < y)),
        decreases chunk.end.y - y,
    {
        proof {
            assert((y - chunk.start.y) * size + size <= size * size) by (nonlinear_arith)
                requires
                    0 <= y - chunk.start.y < size,
            ;
        }
        let mut x: i32 = chunk.start.x;
        while x < chunk.end.x
            invariant
                map.wf(),
                map.same_shape(old(map)),
                map.revealed_tiles@ == old(map).revealed_tiles@,
                map.blocked@ == old(map).blocked@,
                w == map.width,
                h == map.height,
                chunk.fits(map),
                size == chunk.size,
                size * size <= 0x1000_0000,
                map_chunk.pattern@.len() == size * size,
                chunk.start.y <= y < chunk.end.y,
                chunk.start.x <= x <= chunk.end.x,
                i == (y - chunk.start.y) * size + (x - chunk.start.x),
                (y - chunk.start.y) * size + size <= size * size,
                replaced(
                    old(map).tiles@,
                    map.tiles@,
                    w,
                    |cx: int, cy: int| in_chunk(chunk, cx, cy) && (cy < y || (cy == y && cx < x)),
                    |cx: int, cy: int| drawn_tile(map_chunk, chunk, 0, cx, cy),
                ),
                forall|k: int|
                    0 <= k < map.visible_tiles@.len()
                        ==> #[trigger] map.visible_tiles@[k] == (old(map).visible_tiles@[k]
                        || (in_chunk(chunk, col_of(w, k), row_of(w, k)) && (row_of(
                        w,
                        k,
                    ) < y || (row_of(w, k) == y && col_of(w, k) < x)))),
            decreases chunk.end.x - x,
        {
            proof {
                lemma_cell_unique(w, h, x as int, y as int);
            }
            let idx = map.xy_idx(x, y);
            map.tiles[idx] = map_chunk.pattern[i];
            map.visible_tiles[idx] = true;
            i += 1;
            x += 1;
        }
        proof {
            assert((y - chunk.start.y) * size + size == (y + 1 - chunk.start.y) * size)
                by (nonlinear_arith);
        }
        y += 1;
    }
    let mut slot: i32 = 0;
    while slot < size
        invariant
            map.wf(),
            map.same_shape(old(map)),
            map.revealed_tiles@ == old(map).revealed_tiles@,
            map.blocked@ == old(map).blocked@,
            w == map.width,
            h == map.height,
            chunk.fits(map),
            size == chunk.size,
            0 <= slot <= size,
            forall|k: int| 0 <= k < 4 ==> (#[trigger] map_chunk.exits[k])@.len() == chunk.size,
            replaced(
                old(map).tiles@,
                map.tiles@,
                w,
                |cx: int, cy: int| in_chunk(chunk, cx, cy),
                |cx: int, cy: int| drawn_tile(map_chunk, chunk, slot as int, cx, cy),
            ),
            forall|k: int|
                0 <= k < map.visible_tiles@.len()
                    ==> #[trigger] map.visible_tiles@[k] == (old(map).visible_tiles@[k]
                    || in_chunk(chunk, col_of(w, k), row_of(w, k))),
        decreases size - slot,
    {
        proof {
            lemma_cell_unique(w, h, chunk.start.x + slot, chunk.start.y as int);
            lemma_cell_unique(w, h, chunk.start.x + slot, chunk.start.y + size - 1);
            lemma_cell_unique(w, h, chunk.start.x as int, chunk.start.y + slot);
            lemma_cell_unique(w, h, chunk.start.x + size - 1, chunk.start.y + slot);
            assert(map_chunk.exits[0]@.len() == size);
            assert(map_chunk.exits[1]@.len() == size);
            assert(map_chunk.exits[2]@.len() == size);
            assert(map_chunk.exits[3]@.len() == size);
        }
        if map_chunk.exits[0][slot as usize] {
            let map_idx = Direction::North.map_index(map, &chunk, slot);
            map.tiles[map_idx] = TileType::DownStairs;
        }
        if map_chunk.exits[1][slot as usize] {
            let map_idx = Direction::South.map_index(map, &chunk, slot);
            map.tiles[map_idx] = TileType::DownStairs;
        }
        if map_chunk.exits[3][slot as usize] {
            let map_idx = Direction::East.map_index(map, &chunk, slot);
            map.tiles[map_idx] = TileType::DownStairs;
        }
        if map_chunk.exits[2][slot as usize] {
            let map_idx = Direction::West.map_index(map, &chunk, slot);
            map.tiles[map_idx] = TileType::DownStairs;
        }
        slot += 1;
    }
}

} // verus!
