use crate::build_data::{BuildData, BuildError};
use crate::chain::MetaMapBuilder;
use crate::flood::{
    flood_distances, flood_fill, flood_labels, flood_rounds, lemma_flood_antitone,
    lemma_flood_len, DEFAULT_FLOOD_DEPTH, UNREACHED,
};
use crate::position::Position;
use crate::rect::Rect;
use crate::tile_map::{
    cell_count, col_of, dug, is_interior, lemma_cell_unique, lemma_index_cell, overlaid, row_of,
    TileMap, TileType,
};
use rltk::RandomNumberGenerator;
use vstd::prelude::*;

verus! {

/// The ways to measure how far two cells are apart.
#[derive(PartialEq, Eq, Clone, Copy, Debug, Structural)]
pub enum DistanceAlgorithm {
    Pythagoras,
    Manhattan,
    Chebyshev,
}

/// The ways a brush stroke is mirrored about the centre of the map.
#[derive(PartialEq, Eq, Clone, Copy, Debug, Structural)]
pub enum Symmetry {
    NoSymmetry,
    Horizontal,
    Vertical,
    Both,
}

pub open spec fn spec_abs(a: int) -> int {
    if a < 0 {
        -a
    } else {
        a
    }
}

pub open spec fn spec_min(a: int, b: int) -> int {
    if a <= b {
        a
    } else {
        b
    }
}

pub open spec fn spec_max(a: int, b: int) -> int {
    if a >= b {
        a
    } else {
        b
    }
}

/// The distance of `(x1, y1)` from `(x2, y2)`: the square of the straight
/// line, the sum of the two offsets, or the larger of them.
pub open spec fn spec_distance(
    algorithm: DistanceAlgorithm,
    x1: int,
    y1: int,
    x2: int,
    y2: int,
) -> int {
    let dx = spec_abs(x1 - x2);
    let dy = spec_abs(y1 - y2);
    match algorithm {
        DistanceAlgorithm::Pythagoras => dx * dx + dy * dy,
        DistanceAlgorithm::Manhattan => dx + dy,
        DistanceAlgorithm::Chebyshev => spec_max(dx, dy),
    }
}

pub fn abs_diff(a: i32, b: i32) -> (d: i64)
    ensures
        d == spec_abs(a - b),
{
    let d: i64 = a as i64 - b as i64;
    if d < 0 {
        -d
    } else {
        d
    }
}

impl DistanceAlgorithm {
    /// Measures the distance between two cells.
    pub fn apply(&self, from: Position, to: Position) -> (d: i64)
        requires
            -crate::tile_map::MAX_DIMENSION <= from.x <= crate::tile_map::MAX_DIMENSION,
            -crate::tile_map::MAX_DIMENSION <= from.y <= crate::tile_map::MAX_DIMENSION,
            -crate::tile_map::MAX_DIMENSION <= to.x <= crate::tile_map::MAX_DIMENSION,
            -crate::tile_map::MAX_DIMENSION <= to.y <= crate::tile_map::MAX_DIMENSION,
        ensures
            d == spec_distance(*self, from.x as int, from.y as int, to.x as int, to.y as int),
    {
        let dx = abs_diff(from.x, to.x);
        let dy = abs_diff(from.y, to.y);
        match self {
            DistanceAlgorithm::Pythagoras => {
                assert(dx * dx <= 32768 * 32768 && dy * dy <= 32768 * 32768) by (nonlinear_arith)
                    requires
                        0 <= dx <= 32768,
                        0 <= dy <= 32768,
                ;
                dx * dx + dy * dy
            },
            DistanceAlgorithm::Manhattan => dx + dy,
            DistanceAlgorithm::Chebyshev => if dx >= dy {
                dx
            } else {
                dy
            },
        }
    }
}

/// The cells that a room covers: right of `x1` up to `x2`, below `y1` down
/// to `y2`.
pub open spec fn in_room(room: Rect, x: int, y: int) -> bool {
    room.x1 < x <= room.x2 && room.y1 < y <= room.y2
}

/// Places a rectangular room onto the map by setting all tiles within its
/// boundaries to floor tiles.
pub fn apply_room_to_map(map: &mut TileMap, room: &Rect)
    requires
        old(map).wf(),
        -1 <= room.x1,
        room.x2 < old(map).width,
        -1 <= room.y1,
        room.y2 < old(map).height,
    ensures
        final(map).wf(),
        final(map).same_but_tiles(old(map)),
        overlaid(
            old(map).tiles@,
            final(map).tiles@,
            old(map).width as int,
            |x: int, y: int| in_room(*room, x, y),
            TileType::Floor,
        ),
{
    let ghost w = map.width as int;
    if room.x1 >= room.x2 || room.y1 >= room.y2 {
        return ;
    }
    let mut y: i32 = room.y1 + 1;
    while y <= room.y2
        invariant
            map.wf(),
            map.same_but_tiles(old(map)),
            w == map.width,
            -1 <= room.x1 < room.x2 < map.width,
            -1 <= room.y1 < room.y2 < map.height,
            room.y1 + 1 <= y <= room.y2 + 1,
            overlaid(
                old(map).tiles@,
                map.tiles@,
                w,
                |cx: int, cy: int| in_room(*room, cx, cy) && cy < y,
                TileType::Floor,
            ),
        decreases room.y2 + 1 - y,
    {
        let mut x: i32 = room.x1 + 1;
        while x <= room.x2
            invariant
                map.wf(),
                map.same_but_tiles(old(map)),
                w == map.width,
                -1 <= room.x1 < room.x2 < map.width,
                -1 <= room.y1,
                room.y1 + 1 <= y <= room.y2,
                room.y2 < map.height,
                room.x1 + 1 <= x <= room.x2 + 1,
                overlaid(
                    old(map).tiles@,
                    map.tiles@,
                    w,
                    |cx: int, cy: int| in_room(*room, cx, cy) && (cy < y || (cy == y && cx < x)),
                    TileType::Floor,
                ),
            decreases room.x2 + 1 - x,
        {
            proof {
                lemma_cell_unique(w, map.height as int, x as int, y as int);
            }
            let idx = map.xy_idx(x, y);
            map.tiles[idx] = TileType::Floor;
            x += 1;
        }
        y += 1;
    }
}

/// Whether `v` lies between `a` and `b`, both included, whichever is larger.
pub open spec fn between(a: int, b: int, v: int) -> bool {
    spec_min(a, b) <= v <= spec_max(a, b)
}

/// Places a horizontal tunnel between two columns of row `y`.
pub fn apply_horizontal_tunnel(map: &mut TileMap, x1: i32, x2: i32, y: i32)
    requires
        old(map).wf(),
        0 <= x1 < old(map).width,
        0 <= x2 < old(map).width,
        0 <= y < old(map).height,
    ensures
        final(map).wf(),
        final(map).same_but_tiles(old(map)),
        overlaid(
            old(map).tiles@,
            final(map).tiles@,
            old(map).width as int,
            |cx: int, cy: int| cy == y && between(x1 as int, x2 as int, cx) && (cx > 0 || cy > 0),
            TileType::Floor,
        ),
{
    let ghost w = map.width as int;
    let lo: i32 = if x1 <= x2 {
        x1
    } else {
        x2
    };
    let hi: i32 = if x1 <= x2 {
        x2
    } else {
        x1
    };
    let mut x: i32 = lo;
    while x <= hi
        invariant
            map.wf(),
            map.same_but_tiles(old(map)),
            w == map.width,
            lo == spec_min(x1 as int, x2 as int),
            hi == spec_max(x1 as int, x2 as int),
            0 <= lo <= x <= hi + 1,
            hi < map.width,
            0 <= y < map.height,
            overlaid(
                old(map).tiles@,
                map.tiles@,
                w,
                |cx: int, cy: int|
                    cy == y && between(x1 as int, x2 as int, cx) && cx < x && (cx > 0 || cy > 0),
                TileType::Floor,
            ),
        decreases hi + 1 - x,
    {
        proof {
            lemma_cell_unique(w, map.height as int, x as int, y as int);
            lemma_cell_unique(w, map.height as int, 0, 0);
        }
        let idx = map.xy_idx(x, y);
        if idx > 0 {
            map.tiles[idx] = TileType::Floor;
        }
        x += 1;
    }
}

/// Places a vertical tunnel between two rows of column `x`.
pub fn apply_vertical_tunnel(map: &mut TileMap, y1: i32, y2: i32, x: i32)
    requires
        old(map).wf(),
        0 <= y1 < old(map).height,
        0 <= y2 < old(map).height,
        0 <= x < old(map).width,
    ensures
        final(map).wf(),
        final(map).same_but_tiles(old(map)),
        overlaid(
            old(map).tiles@,
            final(map).tiles@,
            old(map).width as int,
            |cx: int, cy: int| cx == x && between(y1 as int, y2 as int, cy) && (cx > 0 || cy > 0),
            TileType::Floor,
        ),
{
    let ghost w = map.width as int;
    let lo: i32 = if y1 <= y2 {
        y1
    } else {
        y2
    };
    let hi: i32 = if y1 <= y2 {
        y2
    } else {
        y1
    };
    let mut y: i32 = lo;
    while y <= hi
        invariant
            map.wf(),
            map.same_but_tiles(old(map)),
            w == map.width,
            lo == spec_min(y1 as int, y2 as int),
            hi == spec_max(y1 as int, y2 as int),
            0 <= lo <= y <= hi + 1,
            hi < map.height,
            0 <= x < map.width,
            overlaid(
                old(map).tiles@,
                map.tiles@,
                w,
                |cx: int, cy: int|
                    cx == x && between(y1 as int, y2 as int, cy) && cy < y && (cx > 0 || cy > 0),
                TileType::Floor,
            ),
        decreases hi + 1 - y,
    {
        proof {
            lemma_cell_unique(w, map.height as int, x as int, y as int);
            lemma_cell_unique(w, map.height as int, 0, 0);
        }
        let idx = map.xy_idx(x, y);
        if idx > 0 {
            map.tiles[idx] = TileType::Floor;
        }
        y += 1;
    }
}

/// The cells of the corridor from `(x1, y1)` to `(x2, y2)`: along row `y1`
/// to column `x2`, then along column `x2` to row `y2`, the first cell left
/// out.
pub open spec fn on_corridor(x1: int, y1: int, x2: int, y2: int, x: int, y: int) -> bool {
    ||| (y == y1 && x != x1 && between(x1, x2, x))
    ||| (x == x2 && y != y1 && between(y1, y2, y))
}

/// Whether every cell of the corridor from `(x1, y1)` to `(x2, y2)` is
/// floor.
pub open spec fn corridor_floor(
    tiles: Seq<TileType>,
    width: int,
    x1: int,
    y1: int,
    x2: int,
    y2: int,
) -> bool {
    forall|i: int|
        0 <= i < tiles.len() && on_corridor(x1, y1, x2, y2, col_of(width, i), row_of(width, i))
            ==> #[trigger] tiles[i] == TileType::Floor
}

/// Whether a corridor of floor runs from a cell of `a` to a cell of `b`,
/// the cells of a rectangle being those from its first corner up to, but
/// not including, its second.
pub open spec fn linked(tiles: Seq<TileType>, width: int, a: Rect, b: Rect) -> bool {
    exists|x1: int, y1: int, x2: int, y2: int|
        a.x1 <= x1 < a.x2 && a.y1 <= y1 < a.y2 && b.x1 <= x2 < b.x2 && b.y1 <= y2 < b.y2
            && #[trigger] corridor_floor(tiles, width, x1, y1, x2, y2)
}

/// Whether room `k` and the next, if both have a cell, are linked.
pub open spec fn link_at(tiles: Seq<TileType>, width: int, rooms: Seq<Rect>, k: int) -> bool {
    rooms[k].x1 < rooms[k].x2 && rooms[k].y1 < rooms[k].y2 && rooms[k + 1].x1 < rooms[k + 1].x2
        && rooms[k + 1].y1 < rooms[k + 1].y2 ==> linked(tiles, width, rooms[k], rooms[k + 1])
}

/// Whether each of the first `n` rooms that has a cell is linked to the
/// next.
pub open spec fn rooms_linked(tiles: Seq<TileType>, width: int, rooms: Seq<Rect>, n: int) -> bool {
    forall|k: int| 0 <= k < n && k + 1 < rooms.len() ==> #[trigger] link_at(tiles, width, rooms, k)
}

/// Two rooms that are linked stay linked where tiles are dug.
pub proof fn lemma_dug_keeps_link(
    before: Seq<TileType>,
    after: Seq<TileType>,
    width: int,
    height: int,
    a: Rect,
    b: Rect,
)
    requires
        dug(before, after, width, height),
        linked(before, width, a, b),
    ensures
        linked(after, width, a, b),
{
    let (x1, y1, x2, y2) = choose|x1: int, y1: int, x2: int, y2: int|
        a.x1 <= x1 < a.x2 && a.y1 <= y1 < a.y2 && b.x1 <= x2 < b.x2 && b.y1 <= y2 < b.y2
            && #[trigger] corridor_floor(before, width, x1, y1, x2, y2);
    assert forall|i: int|
        0 <= i < after.len() && on_corridor(
            x1,
            y1,
            x2,
            y2,
            col_of(width, i),
            row_of(width, i),
        ) implies #[trigger] after[i] == TileType::Floor by {
        assert(before[i] == TileType::Floor);
    }
    assert(corridor_floor(after, width, x1, y1, x2, y2));
}

/// Rooms that are linked stay linked where tiles are dug.
pub proof fn lemma_dug_keeps_links(
    before: Seq<TileType>,
    after: Seq<TileType>,
    width: int,
    height: int,
    rooms: Seq<Rect>,
    n: int,
)
    requires
        dug(before, after, width, height),
        rooms_linked(before, width, rooms, n),
    ensures
        rooms_linked(after, width, rooms, n),
{
    assert forall|k: int| 0 <= k < n && k + 1 < rooms.len() implies #[trigger] link_at(
        after,
        width,
        rooms,
        k,
    ) by {
        assert(link_at(before, width, rooms, k));
        if linked(before, width, rooms[k], rooms[k + 1]) {
            lemma_dug_keeps_link(before, after, width, height, rooms[k], rooms[k + 1]);
        }
    }
}

/// Digs a corridor from `(x1, y1)` to `(x2, y2)`, first along the row, then
/// along the column.
pub fn draw_corridor(map: &mut TileMap, x1: i32, y1: i32, x2: i32, y2: i32)
    requires
        old(map).wf(),
        0 <= x1 < old(map).width,
        0 <= x2 < old(map).width,
        0 <= y1 < old(map).height,
        0 <= y2 < old(map).height,
    ensures
        final(map).wf(),
        final(map).same_but_tiles(old(map)),
        overlaid(
            old(map).tiles@,
            final(map).tiles@,
            old(map).width as int,
            |cx: int, cy: int|
                on_corridor(x1 as int, y1 as int, x2 as int, y2 as int, cx, cy),
            TileType::Floor,
        ),
{
    let ghost w = map.width as int;
    let mut x: i32 = x1;
    let mut y: i32 = y1;
    while x != x2 || y != y2
        invariant
            map.wf(),
            map.same_but_tiles(old(map)),
            w == map.width,
            0 <= x1 < map.width,
            0 <= x2 < map.width,
            0 <= y1 < map.height,
            0 <= y2 < map.height,
            between(x1 as int, x2 as int, x as int),
            between(y1 as int, y2 as int, y as int),
            x != x2 ==> y == y1,
            overlaid(
                old(map).tiles@,
                map.tiles@,
                w,
                |cx: int, cy: int|
                    (cy == y1 && cx != x1 && between(x1 as int, x as int, cx)) || (x == x2 && cx
                        == x2 && cy != y1 && between(y1 as int, y as int, cy)),
                TileType::Floor,
            ),
        decreases spec_abs(x2 - x) + spec_abs(y2 - y),
    {
        if x < x2 {
            x += 1;
        } else if x > x2 {
            x -= 1;
        } else if y < y2 {
            y += 1;
        } else if y > y2 {
            y -= 1;
        }
        proof {
            lemma_cell_unique(w, map.height as int, x as int, y as int);
        }
        let idx = map.xy_idx(x, y);
        map.tiles[idx] = TileType::Floor;
    }
}

/// Half the side of a brush of `brush_size`.
pub open spec fn half_brush(brush_size: int) -> int {
    if brush_size >= 2 {
        brush_size / 2
    } else {
        0
    }
}

/// Whether a brush of `brush_size` set down on `(sx, sy)` covers `(x, y)`:
/// a brush of size one covers the cell it is set on; a larger one covers
/// the cells off the border within half its size to the left and above,
/// and short of that to the right and below.
pub open spec fn in_stamp(
    brush_size: int,
    width: int,
    height: int,
    sx: int,
    sy: int,
    x: int,
    y: int,
) -> bool {
    if brush_size == 1 {
        x == sx && y == sy
    } else {
        let half = half_brush(brush_size);
        &&& sx - half <= x < sx + half
        &&& sy - half <= y < sy + half
        &&& is_interior(width, height, x, y)
    }
}

/// Applies paint to the tiles that the brush covers.
pub fn apply_paint(map: &mut TileMap, brush_size: i32, x: i32, y: i32)
    requires
        old(map).wf(),
        brush_size == 1 ==> 0 <= x < old(map).width && 0 <= y < old(map).height,
    ensures
        final(map).wf(),
        final(map).same_but_tiles(old(map)),
        overlaid(
            old(map).tiles@,
            final(map).tiles@,
            old(map).width as int,
            |cx: int, cy: int|
                in_stamp(
                    brush_size as int,
                    old(map).width as int,
                    old(map).height as int,
                    x as int,
                    y as int,
                    cx,
                    cy,
                ),
            TileType::Floor,
        ),
{
    let ghost w = map.width as int;
    let ghost h = map.height as int;
    if brush_size == 1 {
        proof {
            lemma_cell_unique(w, h, x as int, y as int);
        }
        let idx = map.xy_idx(x, y);
        map.tiles[idx] = TileType::Floor;
    } else {
        let half: i64 = if brush_size >= 2 {
            (brush_size / 2) as i64
        } else {
            0
        };
        let top: i64 = y as i64 - half;
        let bottom: i64 = y as i64 + half;
        let left: i64 = x as i64 - half;
        let right: i64 = x as i64 + half;
        let mut brush_y: i64 = top;
        while brush_y < bottom
            invariant
                map.wf(),
                map.same_but_tiles(old(map)),
                w == map.width,
                h == map.height,
                brush_size != 1,
                half == half_brush(brush_size as int),
                top == y - half,
                bottom == y + half,
                left == x - half,
                right == x + half,
                top <= brush_y <= bottom,
                overlaid(
                    old(map).tiles@,
                    map.tiles@,
                    w,
                    |cx: int, cy: int|
                        in_stamp(brush_size as int, w, h, x as int, y as int, cx, cy) && cy
                            < brush_y,
                    TileType::Floor,
                ),
            decreases bottom - brush_y,
        {
            let mut brush_x: i64 = left;
            while brush_x < right
                invariant
                    map.wf(),
                    map.same_but_tiles(old(map)),
                    w == map.width,
                    h == map.height,
                    brush_size != 1,
                    half == half_brush(brush_size as int),
                    top == y - half,
                    bottom == y + half,
                    left == x - half,
                    right == x + half,
                    top <= brush_y < bottom,
                    left <= brush_x <= right,
                    overlaid(
                        old(map).tiles@,
                        map.tiles@,
                        w,
                        |cx: int, cy: int|
                            in_stamp(brush_size as int, w, h, x as int, y as int, cx, cy) && (cy
                                < brush_y || (cy == brush_y && cx < brush_x)),
                        TileType::Floor,
                    ),
                decreases right - brush_x,
            {
                if brush_x >= 1 && brush_x < map.width as i64 - 1 && brush_y >= 1 && brush_y
                    < map.height as i64 - 1 {
                    proof {
                        lemma_cell_unique(w, h, brush_x as int, brush_y as int);
                    }
                    let idx = map.xy_idx(brush_x as i32, brush_y as i32);
                    map.tiles[idx] = TileType::Floor;
                }
                brush_x += 1;
            }
            brush_y += 1;
        }
    }
}

/// Whether a stroke at `(x, y)` paints `(px, py)`: the cell itself, and
/// what the brush covers where it is set down, which the symmetry decides:
/// on the cell, or on its two mirror images across the centre column, the
/// centre row, or both.
pub open spec fn painted(
    mode: Symmetry,
    brush_size: int,
    width: int,
    height: int,
    x: int,
    y: int,
    px: int,
    py: int,
) -> bool {
    let cx = width / 2;
    let cy = height / 2;
    let dx = spec_abs(cx - x);
    let dy = spec_abs(cy - y);
    let here = in_stamp(brush_size, width, height, x, y, px, py);
    let across = in_stamp(brush_size, width, height, cx + dx, y, px, py) || in_stamp(
        brush_size,
        width,
        height,
        cx - dx,
        y,
        px,
        py,
    );
    let along = in_stamp(brush_size, width, height, x, cy + dy, px, py) || in_stamp(
        brush_size,
        width,
        height,
        x,
        cy - dy,
        px,
        py,
    );
    (px == x && py == y) || match mode {
        Symmetry::NoSymmetry => here,
        Symmetry::Horizontal => if x == cx {
            here
        } else {
            across
        },
        Symmetry::Vertical => if y == cy {
            here
        } else {
            along
        },
        Symmetry::Both => if x == cx && y == cy {
            here
        } else {
            across || along
        },
    }
}

/// Paints the tile at `(x, y)` and what the brush covers under the
/// symmetry `mode`.
pub fn paint(map: &mut TileMap, mode: Symmetry, brush_size: i32, x: i32, y: i32)
    requires
        old(map).wf(),
        is_interior(old(map).width as int, old(map).height as int, x as int, y as int),
    ensures
        final(map).wf(),
        final(map).same_but_tiles(old(map)),
        overlaid(
            old(map).tiles@,
            final(map).tiles@,
            old(map).width as int,
            |px: int, py: int|
                painted(
                    mode,
                    brush_size as int,
                    old(map).width as int,
                    old(map).height as int,
                    x as int,
                    y as int,
                    px,
                    py,
                ),
            TileType::Floor,
        ),
        mode == Symmetry::NoSymmetry || brush_size != 1 || (2 <= x && 2 <= y) ==> dug(
            old(map).tiles@,
            final(map).tiles@,
            old(map).width as int,
            old(map).height as int,
        ),
{
    let ghost w = map.width as int;
    let ghost h = map.height as int;
    let (center_x, center_y) = map.center();
    proof {
        lemma_cell_unique(w, h, x as int, y as int);
    }
    let idx = map.xy_idx(x, y);
    map.tiles[idx] = TileType::Floor;
    let d_x: i32 = if center_x >= x {
        center_x - x
    } else {
        x - center_x
    };
    let d_y: i32 = if center_y >= y {
        center_y - y
    } else {
        y - center_y
    };
    match mode {
        Symmetry::NoSymmetry => apply_paint(map, brush_size, x, y),
        Symmetry::Horizontal => {
            if x == center_x {
                apply_paint(map, brush_size, x, y);
            } else {
                apply_paint(map, brush_size, center_x + d_x, y);
                apply_paint(map, brush_size, center_x - d_x, y);
            }
        },
        Symmetry::Vertical => {
            if y == center_y {
                apply_paint(map, brush_size, x, y);
            } else {
                apply_paint(map, brush_size, x, center_y + d_y);
                apply_paint(map, brush_size, x, center_y - d_y);
            }
        },
        Symmetry::Both => {
            if x == center_x && y == center_y {
                apply_paint(map, brush_size, x, y);
            } else {
                apply_paint(map, brush_size, center_x + d_x, y);
                apply_paint(map, brush_size, center_x - d_x, y);
                apply_paint(map, brush_size, x, center_y + d_y);
                apply_paint(map, brush_size, x, center_y - d_y);
            }
        },
    }
}

/// Which cells a wall blocks.
pub open spec fn wall_mask(tiles: Seq<TileType>) -> Seq<bool> {
    Seq::new(tiles.len(), |i: int| tiles[i] == TileType::Wall)
}

/// The flood distance of every cell from `starts` over the tiles that are
/// no walls.
pub open spec fn tile_distances(
    tiles: Seq<TileType>,
    width: int,
    height: int,
    starts: Seq<usize>,
    max_depth: u32,
) -> Seq<u32> {
    flood_distances(width, height, wall_mask(tiles), starts, max_depth)
}

/// The tiles with every floor that the flood from `starts` does not reach
/// turned into a wall.
pub open spec fn culled(
    tiles: Seq<TileType>,
    width: int,
    height: int,
    starts: Seq<usize>,
    max_depth: u32,
) -> Seq<TileType> {
    Seq::new(
        tiles.len(),
        |i: int|
            if tiles[i] == TileType::Floor && tile_distances(
                tiles,
                width,
                height,
                starts,
                max_depth,
            )[i] == UNREACHED {
                TileType::Wall
            } else {
                tiles[i]
            },
    )
}

/// Culling leaves every round of the flood as it was: the cells it walls
/// up were never reached.
pub proof fn lemma_cull_keeps_flood(
    tiles: Seq<TileType>,
    width: int,
    height: int,
    starts: Seq<usize>,
    max_depth: u32,
    rounds: nat,
)
    requires
        0 < width,
        0 < height,
        tiles.len() == cell_count(width, height),
        rounds <= flood_rounds(max_depth),
    ensures
        flood_labels(
            width,
            height,
            wall_mask(culled(tiles, width, height, starts, max_depth)),
            starts,
            max_depth,
            rounds,
        ) == flood_labels(width, height, wall_mask(tiles), starts, max_depth, rounds),
    decreases rounds,
{
    let open_before = wall_mask(tiles);
    let open_after = wall_mask(culled(tiles, width, height, starts, max_depth));
    if rounds > 0 {
        let earlier = (rounds - 1) as nat;
        lemma_cull_keeps_flood(tiles, width, height, starts, max_depth, earlier);
        let prev = flood_labels(width, height, open_before, starts, max_depth, earlier);
        lemma_flood_len(width, height, open_before, starts, max_depth, earlier);
        let ours = flood_labels(width, height, open_before, starts, max_depth, rounds);
        let theirs = flood_labels(width, height, open_after, starts, max_depth, rounds);
        assert forall|i: int| 0 <= i < prev.len() implies ours[i] == theirs[i] by {
            lemma_index_cell(width, height, i);
            if open_after[i] != open_before[i] {
                lemma_flood_antitone(
                    width,
                    height,
                    open_before,
                    starts,
                    max_depth,
                    rounds,
                    flood_rounds(max_depth),
                    i,
                );
                lemma_flood_antitone(
                    width,
                    height,
                    open_before,
                    starts,
                    max_depth,
                    earlier,
                    flood_rounds(max_depth),
                    i,
                );
            }
        }
        assert(ours =~= theirs);
    }
}

/// Culling twice gives what culling once gives, and the flood distances on
/// the culled tiles are those on the tiles before.
pub proof fn lemma_cull_idempotent(
    tiles: Seq<TileType>,
    width: int,
    height: int,
    starts: Seq<usize>,
    max_depth: u32,
)
    requires
        0 < width,
        0 < height,
        tiles.len() == cell_count(width, height),
    ensures
        tile_distances(culled(tiles, width, height, starts, max_depth), width, height, starts,
            max_depth)
            == tile_distances(tiles, width, height, starts, max_depth),
        culled(culled(tiles, width, height, starts, max_depth), width, height, starts, max_depth)
            == culled(tiles, width, height, starts, max_depth),
{
    lemma_cull_keeps_flood(tiles, width, height, starts, max_depth, flood_rounds(max_depth));
    let once = culled(tiles, width, height, starts, max_depth);
    assert(culled(once, width, height, starts, max_depth) =~= once);
}

/// After culling, every floor tile is reached by the flood over the culled
/// tiles.
pub proof fn lemma_culled_floor_reachable(
    tiles: Seq<TileType>,
    width: int,
    height: int,
    starts: Seq<usize>,
    max_depth: u32,
)
    requires
        0 < width,
        0 < height,
        tiles.len() == cell_count(width, height),
    ensures
        forall|i: int|
            0 <= i < tiles.len() && #[trigger] culled(tiles, width, height, starts, max_depth)[i]
                == TileType::Floor ==> tile_distances(
                culled(tiles, width, height, starts, max_depth),
                width,
                height,
                starts,
                max_depth,
            )[i] != UNREACHED,
{
    lemma_cull_idempotent(tiles, width, height, starts, max_depth);
}

/// Culling turns no tile into floor and touches nothing but floor.
pub proof fn lemma_culled_keeps_border(
    tiles: Seq<TileType>,
    width: int,
    height: int,
    starts: Seq<usize>,
    max_depth: u32,
)
    requires
        crate::tile_map::closed_border(tiles, width, height),
    ensures
        crate::tile_map::closed_border(
            culled(tiles, width, height, starts, max_depth),
            width,
            height,
        ),
{
    let after = culled(tiles, width, height, starts, max_depth);
    assert forall|i: int|
        0 <= i < after.len() && crate::tile_map::on_border(
            width,
            height,
            col_of(width, i),
            row_of(width, i),
        ) implies #[trigger] after[i] == TileType::Wall by {
        assert(tiles[i] == TileType::Wall);
    }
}

/// Removes the areas of the map that can not be reached from the starting
/// position.
pub struct CullUnreachable {}

impl CullUnreachable {
    pub fn new() -> (stage: Box<CullUnreachable>) {
        Box::new(CullUnreachable {  })
    }

    /// Floods the map from the starting position and walls up every floor
    /// tile that the flood does not reach.
    pub fn build(&mut self, rng: &mut RandomNumberGenerator, build_data: &mut BuildData)
        requires
            old(build_data).wf(),
            old(build_data).start_on_map(),
        ensures
            final(build_data).wf(),
            final(build_data).map.same_shape(&old(build_data).map),
            final(build_data).map.tiles@ == culled(
                old(build_data).map.tiles@,
                old(build_data).map.width as int,
                old(build_data).map.height as int,
                seq![old(build_data).start_index() as usize],
                DEFAULT_FLOOD_DEPTH,
            ),
            forall|i: int|
                0 <= i < final(build_data).map.tiles@.len()
                    && #[trigger] final(build_data).map.tiles@[i] == TileType::Floor
                    ==> tile_distances(
                    final(build_data).map.tiles@,
                    old(build_data).map.width as int,
                    old(build_data).map.height as int,
                    seq![old(build_data).start_index() as usize],
                    DEFAULT_FLOOD_DEPTH,
                )[i] != UNREACHED,
            old(build_data).map.border_closed() ==> final(build_data).map.border_closed(),
            final(build_data).map.blocked@ == wall_mask(old(build_data).map.tiles@),
            final(build_data).map.revealed_tiles@ == old(build_data).map.revealed_tiles@,
            final(build_data).map.visible_tiles@ == old(build_data).map.visible_tiles@,
            final(build_data).spawn_list == old(build_data).spawn_list,
            final(build_data).start == old(build_data).start,
            final(build_data).rooms == old(build_data).rooms,
            final(build_data).history == old(build_data).history,
            final(build_data).record_history == old(build_data).record_history,
    {
        let start_idx = build_data.start_idx().unwrap();
        build_data.map.populate_blocked();
        let mut map_starts: Vec<usize> = Vec::new();
        map_starts.push(start_idx);
        let ghost width = build_data.map.width as int;
        let ghost height = build_data.map.height as int;
        let ghost before = build_data.map.tiles@;
        proof {
            assert(map_starts@ =~= seq![old(build_data).start_index() as usize]);
            assert(build_data.map.blocked@ =~= wall_mask(before));
        }
        let distances = flood_fill(&build_data.map, &map_starts, DEFAULT_FLOOD_DEPTH);
        let n: usize = build_data.map.tiles.len();
        let mut i: usize = 0;
        while i < n
            invariant
                i <= n,
                n == before.len(),
                build_data.map.wf(),
                build_data.map.same_shape(&old(build_data).map),
                build_data.map.tiles@.len() == n,
                distances@
                    == tile_distances(before, width, height, map_starts@, DEFAULT_FLOOD_DEPTH),
                distances@.len() == n,
                forall|j: int|
                    0 <= j < i ==> build_data.map.tiles@[j] == culled(
                        before,
                        width,
                        height,
                        map_starts@,
                        DEFAULT_FLOOD_DEPTH,
                    )[j],
                forall|j: int| i <= j < n ==> build_data.map.tiles@[j] == before[j],
                build_data.map.blocked@ == wall_mask(before),
                build_data.map.revealed_tiles@ == old(build_data).map.revealed_tiles@,
                build_data.map.visible_tiles@ == old(build_data).map.visible_tiles@,
                build_data.spawn_list == old(build_data).spawn_list,
                build_data.start == old(build_data).start,
                build_data.rooms == old(build_data).rooms,
                build_data.history == old(build_data).history,
                build_data.record_history == old(build_data).record_history,
            decreases n - i,
        {
            if build_data.map.tiles[i] == TileType::Floor && distances[i] == UNREACHED {
                build_data.map.tiles[i] = TileType::Wall;
            }
            i += 1;
        }
        proof {
            let after = culled(before, width, height, map_starts@, DEFAULT_FLOOD_DEPTH);
            assert(build_data.map.tiles@ =~= after);
            lemma_culled_floor_reachable(before, width, height, map_starts@, DEFAULT_FLOOD_DEPTH);
            if old(build_data).map.border_closed() {
                lemma_culled_keeps_border(before, width, height, map_starts@, DEFAULT_FLOOD_DEPTH);
            }
        }
    }
}

impl MetaMapBuilder for CullUnreachable {
    open spec fn meta_outcome(
        &self,
        before: &BuildData,
        after: &BuildData,
        result: Result<(), BuildError>,
    ) -> bool {
        match result {
            Err(error) => error == BuildError::NoStartingPosition && (!before.start_on_map()),
            Ok(_) => {
                &&& before.map.border_closed() ==> after.map.border_closed()
                &&& !(!before.start_on_map())
                &&& after.map.tiles@ == culled(
                    before.map.tiles@,
                    before.map.width as int,
                    before.map.height as int,
                    seq![before.start_index() as usize],
                    DEFAULT_FLOOD_DEPTH,
                )
                &&& after.spawn_list == before.spawn_list
                &&& after.start == before.start
                &&& after.rooms == before.rooms
            },
        }
    }

    fn build_map(&mut self, rng: &mut RandomNumberGenerator, build_data: &mut BuildData) -> (result:
        Result<(), BuildError>)
        ensures
            result is Err <==> !old(build_data).start_on_map(),
    {
        if build_data.start_idx().is_none() {
            return Err(BuildError::NoStartingPosition);
        }
        self.build(rng, build_data);
        Ok(())
    }
}

/// Whether the tile at `i` can become the exit: a floor that the flood
/// reached.
pub open spec fn exit_candidate(tiles: Seq<TileType>, distances: Seq<u32>, i: int) -> bool {
    0 <= i < tiles.len() && tiles[i] == TileType::Floor && distances[i] != UNREACHED
}

/// Whether `exit` is where the exit goes: the first of the candidates
/// that are farthest from the start.
pub open spec fn is_distant_exit(tiles: Seq<TileType>, distances: Seq<u32>, exit: int) -> bool {
    &&& exit_candidate(tiles, distances, exit)
    &&& forall|j: int| #[trigger]
        exit_candidate(tiles, distances, j) ==> distances[j] <= distances[exit]
    &&& forall|j: int| #[trigger]
        exit_candidate(tiles, distances, j) && j < exit ==> distances[j] < distances[exit]
}

/// Whether the flood from the starting position reaches a floor tile.
pub open spec fn has_exit_candidate(data: &BuildData) -> bool {
    exists|i: int| #[trigger]
        exit_candidate(
            data.map.tiles@,
            tile_distances(
                data.map.tiles@,
                data.map.width as int,
                data.map.height as int,
                seq![data.start_index() as usize],
                DEFAULT_FLOOD_DEPTH,
            ),
            i,
        )
}

/// Puts the exit on the reachable floor tile that is farthest from the
/// starting position.
pub struct DistantExit {}

impl DistantExit {
    pub fn new() -> (stage: Box<DistantExit>) {
        Box::new(DistantExit {  })
    }

    /// Floods the map from the starting position and turns the farthest
    /// floor tile that the flood reaches into the down stairs; tells which
    /// tile that is. Where the flood reaches no floor tile, nothing is
    /// changed.
    pub fn build(&mut self, rng: &mut RandomNumberGenerator, build_data: &mut BuildData) -> (found:
        Option<usize>)
        requires
            old(build_data).wf(),
            old(build_data).start_on_map(),
        ensures
            found is Some <==> has_exit_candidate(old(build_data)),
            found is None ==> *final(build_data) == *old(build_data),
            found matches Some(exit) ==> {
                &&& is_distant_exit(
                    old(build_data).map.tiles@,
                    tile_distances(
                        old(build_data).map.tiles@,
                        old(build_data).map.width as int,
                        old(build_data).map.height as int,
                        seq![old(build_data).start_index() as usize],
                        DEFAULT_FLOOD_DEPTH,
                    ),
                    exit as int,
                )
                &&& exit < old(build_data).map.tiles@.len()
                &&& final(build_data).map.tiles@ == old(build_data).map.tiles@.update(
                    exit as int,
                    TileType::DownStairs,
                )
                &&& final(build_data).map.blocked@ == wall_mask(old(build_data).map.tiles@)
                &&& final(build_data).history@.len() == old(build_data).history@.len()
                    + if old(build_data).record_history {
                    1int
                } else {
                    0int
                }
            },
            final(build_data).wf(),
            final(build_data).map.same_shape(&old(build_data).map),
            final(build_data).map.revealed_tiles@ == old(build_data).map.revealed_tiles@,
            final(build_data).map.visible_tiles@ == old(build_data).map.visible_tiles@,
            final(build_data).spawn_list == old(build_data).spawn_list,
            final(build_data).start == old(build_data).start,
            final(build_data).rooms == old(build_data).rooms,
            final(build_data).extends_history(old(build_data)),
    {
        let start_idx = build_data.start_idx().unwrap();
        let mut scratch = build_data.map.revealed_copy();
        scratch.populate_blocked();
        let mut map_starts: Vec<usize> = Vec::new();
        map_starts.push(start_idx);
        let ghost width = build_data.map.width as int;
        let ghost height = build_data.map.height as int;
        let ghost before = build_data.map.tiles@;
        proof {
            assert(map_starts@ =~= seq![old(build_data).start_index() as usize]);
            assert(scratch.blocked@ =~= wall_mask(before));
            assert(0 < width * height) by (nonlinear_arith)
                requires
                    0 < width,
                    0 < height,
            ;
        }
        let distances = flood_fill(&scratch, &map_starts, DEFAULT_FLOOD_DEPTH);
        let ghost reach = tile_distances(
            before,
            width,
            height,
            seq![old(build_data).start_index() as usize],
            DEFAULT_FLOOD_DEPTH,
        );
        proof {
            assert(distances@ == reach);
        }
        let n: usize = build_data.map.tiles.len();
        let mut found = false;
        let mut exit: usize = 0;
        let mut best: u32 = 0;
        let mut i: usize = 0;
        while i < n
            invariant
                i <= n,
                0 < n,
                n == before.len(),
                *build_data == *old(build_data),
                build_data.map.tiles@ == before,
                distances@.len() == n,
                found == (exists|j: int| 0 <= j < i && exit_candidate(before, distances@, j)),
                !found ==> exit == 0,
                found ==> exit < i && exit_candidate(before, distances@, exit as int) && best
                    == distances@[exit as int],
                found ==> forall|j: int|
                    0 <= j < i && #[trigger] exit_candidate(before, distances@, j)
                        ==> distances@[j] <= best,
                found ==> forall|j: int|
                    0 <= j < exit && #[trigger] exit_candidate(before, distances@, j)
                        ==> distances@[j] < best,
            decreases n - i,
        {
            let dist_to_start = distances[i];
            if build_data.map.tiles[i] == TileType::Floor && dist_to_start != UNREACHED {
                if !found || dist_to_start > best {
                    exit = i;
                    best = dist_to_start;
                }
                found = true;
                assert(exit_candidate(before, distances@, i as int));
            }
            i += 1;
        }
        if !found {
            proof {
                assert forall|j: int| !#[trigger] exit_candidate(before, reach, j) by {}
                assert(!has_exit_candidate(old(build_data)));
            }
            return None;
        }
        proof {
            assert(exit_candidate(before, reach, exit as int));
            assert(has_exit_candidate(old(build_data)));
        }
        build_data.map.populate_blocked();
        proof {
            assert(build_data.map.blocked@ =~= wall_mask(before));
        }
        build_data.map.tiles[exit] = TileType::DownStairs;
        build_data.take_snapshot();
        Some(exit)
    }
}

impl MetaMapBuilder for DistantExit {
    open spec fn meta_outcome(
        &self,
        before: &BuildData,
        after: &BuildData,
        result: Result<(), BuildError>,
    ) -> bool {
        match result {
            Err(error) => if !before.start_on_map() {
                error == BuildError::NoStartingPosition
            } else {
                error == BuildError::NoExit && !has_exit_candidate(before)
            },
            Ok(_) => {
                &&& before.map.border_closed() ==> after.map.border_closed()
                &&& crate::spawner::spawns_valid(before.map.tiles@, before.spawn_list@)
                    ==> crate::chain::spawns_off_walls(after.map.tiles@, after.spawn_list@)
                &&& before.start_on_map()
                &&& exists|exit: int|
                    0 <= exit < before.map.tiles@.len() && #[trigger] is_distant_exit(
                        before.map.tiles@,
                        tile_distances(
                            before.map.tiles@,
                            before.map.width as int,
                            before.map.height as int,
                            seq![before.start_index() as usize],
                            DEFAULT_FLOOD_DEPTH,
                        ),
                        exit,
                    ) && after.map.tiles@ == before.map.tiles@.update(exit, TileType::DownStairs)
                &&& after.spawn_list == before.spawn_list
                &&& after.start == before.start
                &&& after.rooms == before.rooms
            },
        }
    }

    fn build_map(&mut self, rng: &mut RandomNumberGenerator, build_data: &mut BuildData) -> (result:
        Result<(), BuildError>)
        ensures
            result is Err <==> !(old(build_data).start_on_map() && has_exit_candidate(
                old(build_data),
            )),
    {
        if build_data.start_idx().is_none() {
            return Err(BuildError::NoStartingPosition);
        }
        match self.build(rng, build_data) {
            Some(_) => Ok(()),
            None => Err(BuildError::NoExit),
        }
    }
}

/// The symmetry for a number from zero to three, as the dice give it.
pub fn symmetry_from(n: i32) -> (mode: Symmetry)
    ensures
        mode == match n {
            0 => Symmetry::NoSymmetry,
            1 => Symmetry::Horizontal,
            2 => Symmetry::Vertical,
            _ => Symmetry::Both,
        },
{
    match n {
        0 => Symmetry::NoSymmetry,
        1 => Symmetry::Horizontal,
        2 => Symmetry::Vertical,
        _ => Symmetry::Both,
    }
}

/// Whether `(x, y)` is in the range in which the stages keep their
/// diggers: two cells off the first row and column, and off the last. A
/// step from there stays there.
pub open spec fn digger_range(width: int, height: int, x: int, y: int) -> bool {
    2 <= x <= width - 2 && 2 <= y <= height - 2
}

/// Where a digger at `(x, y)`, off the border, stands after the step that
/// `roll` of a four-sided die asks for: left, right, up or down, or where
/// it is if the step would take it nearer than two cells to the first row
/// or column, or onto the last.
pub open spec fn staggered(width: int, height: int, x: int, y: int, roll: int) -> (int, int) {
    if roll == 1 {
        if x > 2 {
            (x - 1, y)
        } else {
            (x, y)
        }
    } else if roll == 2 {
        if x < width - 2 {
            (x + 1, y)
        } else {
            (x, y)
        }
    } else if roll == 3 {
        if y > 2 {
            (x, y - 1)
        } else {
            (x, y)
        }
    } else {
        if y < height - 2 {
            (x, y + 1)
        } else {
            (x, y)
        }
    }
}

/// Moves a digger one step, as `roll` asks. A digger off the border
/// stays off it, and one in a digger's range stays in that range.
pub fn stagger_step(map: &TileMap, x: i32, y: i32, roll: i32) -> (to: (i32, i32))
    requires
        map.wf(),
        is_interior(map.width as int, map.height as int, x as int, y as int),
    ensures
        (to.0 as int, to.1 as int) == staggered(
            map.width as int,
            map.height as int,
            x as int,
            y as int,
            roll as int,
        ),
        is_interior(map.width as int, map.height as int, to.0 as int, to.1 as int),
        digger_range(map.width as int, map.height as int, x as int, y as int) ==> digger_range(
            map.width as int,
            map.height as int,
            to.0 as int,
            to.1 as int,
        ),
{
    match roll {
        1 => if x > 2 {
            (x - 1, y)
        } else {
            (x, y)
        },
        2 => if x < map.width - 2 {
            (x + 1, y)
        } else {
            (x, y)
        },
        3 => if y > 2 {
            (x, y - 1)
        } else {
            (x, y)
        },
        _ => if y < map.height - 2 {
            (x, y + 1)
        } else {
            (x, y)
        },
    }
}

/// A cursor that staggers over the map.
pub trait Digger {
    /// Where the digger stands.
    spec fn position(&self) -> (i32, i32);

    fn get_position(&self) -> (p: (i32, i32))
        ensures
            p == self.position(),
    ;

    fn set_position(&mut self, x: i32, y: i32)
        ensures
            final(self).position() == (x, y),
    ;

    /// Staggers until the digger is done and tells where it stood before
    /// its last step.
    fn stagger(&mut self, map: &mut TileMap, rng: &mut RandomNumberGenerator) -> (before: (
        i32,
        i32,
    ))
        requires
            old(map).wf(),
            digger_range(
                old(map).width as int,
                old(map).height as int,
                old(self).position().0 as int,
                old(self).position().1 as int,
            ),
        ensures
            final(map).wf(),
            final(map).same_but_tiles(old(map)),
            digger_range(
                old(map).width as int,
                old(map).height as int,
                final(self).position().0 as int,
                final(self).position().1 as int,
            ),
            digger_range(
                old(map).width as int,
                old(map).height as int,
                before.0 as int,
                before.1 as int,
            ),
    ;

    /// Moves the digger one step in a direction that the dice pick, or not
    /// at all where the step would leave its range.
    fn stagger_direction(&mut self, map: &TileMap, rng: &mut RandomNumberGenerator)
        requires
            map.wf(),
            is_interior(
                map.width as int,
                map.height as int,
                old(self).position().0 as int,
                old(self).position().1 as int,
            ),
        ensures
            exists|roll: int|
                1 <= roll <= 4 && (
                    final(self).position().0 as int,
                    final(self).position().1 as int,
                ) == #[trigger] staggered(
                    map.width as int,
                    map.height as int,
                    old(self).position().0 as int,
                    old(self).position().1 as int,
                    roll,
                ),
            is_interior(
                map.width as int,
                map.height as int,
                final(self).position().0 as int,
                final(self).position().1 as int,
            ),
            digger_range(
                map.width as int,
                map.height as int,
                old(self).position().0 as int,
                old(self).position().1 as int,
            ) ==> digger_range(
                map.width as int,
                map.height as int,
                final(self).position().0 as int,
                final(self).position().1 as int,
            ),
    {
        let (x, y) = self.get_position();
        let roll = rng.roll_dice(1, 4);
        let to = stagger_step(map, x, y, roll);
        self.set_position(to.0, to.1);
        proof {
            assert((to.0 as int, to.1 as int) == staggered(
                map.width as int,
                map.height as int,
                x as int,
                y as int,
                roll as int,
            ));
        }
    }
}

} // verus!
