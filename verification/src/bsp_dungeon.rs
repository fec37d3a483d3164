use crate::build_data::{BuildData, BuildError};
use crate::chain::InitialMapBuilder;
use crate::common::{
    apply_room_to_map, corridor_floor, in_room, lemma_dug_keeps_links, on_corridor, rooms_linked,
};
use crate::rect::Rect;
use crate::simple_map::{lemma_dug_keeps_rooms, room_dug, rooms_apart, rooms_carved};
use crate::tile_map::{
    cell_index, col_of, dug, lemma_cell_unique, lemma_dug_keeps_border, lemma_dug_twice,
    lemma_overlaid_dug, row_of, TileMap, TileType, MAX_DIMENSION,
};
use rltk::RandomNumberGenerator;
use vstd::prelude::*;

verus! {

/// How many times the stage tries to place a room.
pub const ATTEMPTS: i32 = 240;

/// The four quarters of `rect`, each at least one cell wide and high: top
/// left, bottom left, top right, bottom right.
pub open spec fn quarters(rect: Rect) -> Seq<Rect> {
    let half_width = if (rect.x2 - rect.x1) / 2 >= 1 {
        (rect.x2 - rect.x1) / 2
    } else {
        1
    };
    let half_height = if (rect.y2 - rect.y1) / 2 >= 1 {
        (rect.y2 - rect.y1) / 2
    } else {
        1
    };
    seq![
        Rect {
            x1: rect.x1,
            y1: rect.y1,
            x2: (rect.x1 + half_width) as i32,
            y2: (rect.y1 + half_height) as i32,
        },
        Rect {
            x1: rect.x1,
            y1: (rect.y1 + half_height) as i32,
            x2: (rect.x1 + half_width) as i32,
            y2: (rect.y1 + 2 * half_height) as i32,
        },
        Rect {
            x1: (rect.x1 + half_width) as i32,
            y1: rect.y1,
            x2: (rect.x1 + 2 * half_width) as i32,
            y2: (rect.y1 + half_height) as i32,
        },
        Rect {
            x1: (rect.x1 + half_width) as i32,
            y1: (rect.y1 + half_height) as i32,
            x2: (rect.x1 + 2 * half_width) as i32,
            y2: (rect.y1 + 2 * half_height) as i32,
        },
    ]
}

/// Whether the corners of `rect` are in order, not negative, and small
/// enough for a map twice over.
pub open spec fn pool_ok(rect: Rect) -> bool {
    &&& 0 <= rect.x1 <= rect.x2 <= 2 * MAX_DIMENSION
    &&& 0 <= rect.y1 <= rect.y2 <= 2 * MAX_DIMENSION
}

pub open spec fn spec_at_least(a: int, b: int) -> int {
    if a >= b {
        a
    } else {
        b
    }
}

pub open spec fn spec_at_most(a: int, b: int) -> int {
    if a <= b {
        a
    } else {
        b
    }
}

/// The room that four rolls cut out of `rect`: its corner moved right and
/// down by one less than the rolls of two six-sided dice, its width and
/// height the rolls of two dice with as many sides as `rect` is wide and
/// high, ten at most, but four at the least.
pub open spec fn spec_sub_rect(rect: Rect, w_roll: int, h_roll: int, dx_roll: int,
    dy_roll: int) -> Rect {
    let width = spec_at_least(3, w_roll - 1) + 1;
    let height = spec_at_least(3, h_roll - 1) + 1;
    let x1 = rect.x1 + dx_roll - 1;
    let y1 = rect.y1 + dy_roll - 1;
    Rect { x1: x1 as i32, y1: y1 as i32, x2: (x1 + width) as i32, y2: (y1 + height) as i32 }
}

/// Whether a room can go at `rect`: no cell within two cells of it lies on
/// the border or off the map or is anything but a wall.
pub open spec fn spec_possible(
    tiles: Seq<TileType>,
    width: int,
    height: int,
    rect: Rect,
) -> bool {
    forall|x: int, y: int|
        rect.x1 - 2 <= x <= rect.x2 + 2 && rect.y1 - 2 <= y <= rect.y2 + 2 ==> 1 <= x <= width
            - 2 && 1 <= y <= height - 2 && tiles[#[trigger] cell_index(width, x, y)]
            == TileType::Wall
}

/// Whether `rect` can be in the pool: its corners in order, at least one
/// cell apart, not negative, and not far off the largest map.
pub open spec fn in_pool(rect: Rect) -> bool {
    &&& 0 <= rect.x1 < rect.x2 <= MAX_DIMENSION + 2
    &&& 0 <= rect.y1 < rect.y2 <= MAX_DIMENSION + 2
}

/// Whether `room` keeps three cells off the map's border and is four to
/// ten cells wide and high.
pub open spec fn room_inside(room: Rect, width: int, height: int) -> bool {
    &&& 3 <= room.x1
    &&& 3 <= room.y1
    &&& room.x2 <= width - 4
    &&& room.y2 <= height - 4
    &&& 4 <= room.x2 - room.x1 <= 10
    &&& 4 <= room.y2 - room.y1 <= 10
}

/// Whether the rooms stand in the order of their left edges.
pub open spec fn sorted_by_x1(rooms: Seq<Rect>) -> bool {
    forall|i: int, j: int| 0 <= i < j < rooms.len() ==> rooms[i].x1 <= rooms[j].x1
}

/// The pool that the stage starts with: the map less two cells on its
/// first row and column and three on its last, and the quarters of that.
pub open spec fn start_pool(width: int, height: int) -> Seq<Rect> {
    let whole = Rect { x1: 2, y1: 2, x2: (width - 3) as i32, y2: (height - 3) as i32 };
    seq![whole] + quarters(whole)
}

/// Whether the second pool, tiles and rooms are what the try of
/// `candidate`, cut out of `rect`, makes of the first: nothing where no
/// room can go there; else the room is dug and listed, and the quarters
/// of `rect` join the pool.
pub open spec fn bsp_added(
    width: int,
    height: int,
    pool: Seq<Rect>,
    tiles: Seq<TileType>,
    rooms: Seq<Rect>,
    rect: Rect,
    candidate: Rect,
    pool_after: Seq<Rect>,
    after: Seq<TileType>,
    rooms_after: Seq<Rect>,
) -> bool {
    if spec_possible(tiles, width, height, candidate) {
        &&& pool_after == pool + quarters(rect)
        &&& after == room_dug(tiles, width, candidate)
        &&& rooms_after == rooms.push(candidate)
    } else {
        pool_after == pool && after == tiles && rooms_after == rooms
    }
}

/// Whether the second pool, tiles and rooms are what one try makes of
/// the first: the try of a room that the dice cut out of a rectangle of
/// the pool.
pub open spec fn bsp_tried(
    width: int,
    height: int,
    pool: Seq<Rect>,
    tiles: Seq<TileType>,
    rooms: Seq<Rect>,
    pool_after: Seq<Rect>,
    after: Seq<TileType>,
    rooms_after: Seq<Rect>,
) -> bool {
    exists|k: int, w_roll: int, h_roll: int, dx_roll: int, dy_roll: int|
        0 <= k < pool.len() && 1 <= w_roll <= spec_at_most(pool[k].x2 - pool[k].x1, 10) && 1
            <= h_roll <= spec_at_most(pool[k].y2 - pool[k].y1, 10) && 1 <= dx_roll <= 6 && 1
            <= dy_roll <= 6 && #[trigger] bsp_added(
            width,
            height,
            pool,
            tiles,
            rooms,
            pool[k],
            spec_sub_rect(pool[k], w_roll, h_roll, dx_roll, dy_roll),
            pool_after,
            after,
            rooms_after,
        )
}

/// Whether the last pool, tiles and rooms are what `n` tries, one after
/// the other, make of the pool `first_pool`, the tiles `first` and no
/// rooms.
pub open spec fn bsp_rooms_tried(
    width: int,
    height: int,
    first_pool: Seq<Rect>,
    first: Seq<TileType>,
    pool_last: Seq<Rect>,
    last: Seq<TileType>,
    rooms_last: Seq<Rect>,
    n: int,
) -> bool
    decreases n,
{
    if n <= 0 {
        pool_last == first_pool && last == first && rooms_last == Seq::<Rect>::empty()
    } else {
        exists|pool_mid: Seq<Rect>, mid: Seq<TileType>, rooms_mid: Seq<Rect>|
            bsp_rooms_tried(width, height, first_pool, first, pool_mid, mid, rooms_mid, n - 1)
                && #[trigger] bsp_tried(
                width,
                height,
                pool_mid,
                mid,
                rooms_mid,
                pool_last,
                last,
                rooms_last,
            )
    }
}

/// One more try makes of what `n` tries made what `n + 1` tries make.
pub proof fn lemma_bsp_step(
    width: int,
    height: int,
    first_pool: Seq<Rect>,
    first: Seq<TileType>,
    pool: Seq<Rect>,
    tiles: Seq<TileType>,
    rooms: Seq<Rect>,
    at: int,
    candidate: Rect,
    pool_after: Seq<Rect>,
    after: Seq<TileType>,
    rooms_after: Seq<Rect>,
    n: int,
)
    requires
        0 <= n,
        bsp_rooms_tried(width, height, first_pool, first, pool, tiles, rooms, n),
        0 <= at < pool.len(),
        exists|w_roll: int, h_roll: int, dx_roll: int, dy_roll: int|
            1 <= w_roll <= spec_at_most(pool[at].x2 - pool[at].x1, 10) && 1 <= h_roll
                <= spec_at_most(pool[at].y2 - pool[at].y1, 10) && 1 <= dx_roll <= 6 && 1 <= dy_roll
                <= 6 && candidate == #[trigger] spec_sub_rect(
                pool[at],
                w_roll,
                h_roll,
                dx_roll,
                dy_roll,
            ),
        bsp_added(
            width,
            height,
            pool,
            tiles,
            rooms,
            pool[at],
            candidate,
            pool_after,
            after,
            rooms_after,
        ),
    ensures
        bsp_rooms_tried(
            width,
            height,
            first_pool,
            first,
            pool_after,
            after,
            rooms_after,
            n + 1,
        ),
{
    let rolls = choose|w_roll: int, h_roll: int, dx_roll: int, dy_roll: int|
        1 <= w_roll <= spec_at_most(pool[at].x2 - pool[at].x1, 10) && 1 <= h_roll <= spec_at_most(
            pool[at].y2 - pool[at].y1,
            10,
        ) && 1 <= dx_roll <= 6 && 1 <= dy_roll <= 6 && candidate == #[trigger] spec_sub_rect(
            pool[at],
            w_roll,
            h_roll,
            dx_roll,
            dy_roll,
        );
    assert(bsp_added(
        width,
        height,
        pool,
        tiles,
        rooms,
        pool[at],
        spec_sub_rect(pool[at], rolls.0, rolls.1, rolls.2, rolls.3),
        pool_after,
        after,
        rooms_after,
    ));
    assert(bsp_tried(width, height, pool, tiles, rooms, pool_after, after, rooms_after));
    assert(bsp_rooms_tried(width, height, first_pool, first, pool, tiles, rooms, n + 1 - 1));
}

/// Whether `sorted` holds the rooms of `placed` in the order of their
/// left edges, rooms with the same left edge in the order in which they
/// were placed; `from` tells where each stood.
pub open spec fn is_sorting(placed: Seq<Rect>, sorted: Seq<Rect>, from: Seq<int>) -> bool {
    &&& sorted.len() == placed.len()
    &&& from.len() == placed.len()
    &&& forall|i: int|
        0 <= i < from.len() ==> 0 <= #[trigger] from[i] < from.len() && sorted[i]
            == placed[from[i]]
    &&& forall|i: int, j: int| 0 <= i < j < from.len() ==> from[i] != from[j]
    &&& sorted_by_x1(sorted)
    &&& forall|i: int, j: int|
        0 <= i < j < from.len() && sorted[i].x1 == sorted[j].x1 ==> from[i] < from[j]
}

pub fn sub_rect(rect: Rect, w_roll: i32, h_roll: i32, dx_roll: i32, dy_roll: i32) -> (room: Rect)
    requires
        pool_ok(rect),
        1 <= w_roll <= 10,
        1 <= h_roll <= 10,
        1 <= dx_roll <= 6,
        1 <= dy_roll <= 6,
    ensures
        room == spec_sub_rect(rect, w_roll as int, h_roll as int, dx_roll as int, dy_roll as int),
{
    let width = if w_roll - 1 > 3 {
        w_roll - 1
    } else {
        3
    } + 1;
    let height = if h_roll - 1 > 3 {
        h_roll - 1
    } else {
        3
    } + 1;
    let x1 = rect.x1 + (dx_roll - 1);
    let y1 = rect.y1 + (dy_roll - 1);
    Rect { x1, y1, x2: x1 + width, y2: y1 + height }
}

/// Sorts the rooms by their left edges, rooms with the same left edge
/// staying in their order. Tells where each room stood before.
fn sort_by_x1(rooms: &mut Vec<Rect>) -> (from: Ghost<Seq<int>>)
    ensures
        final(rooms)@.len() == old(rooms)@.len(),
        from@.len() == old(rooms)@.len(),
        forall|i: int|
            0 <= i < from@.len() ==> 0 <= #[trigger] from@[i] < from@.len() && final(rooms)@[i]
                == old(rooms)@[from@[i]],
        forall|i: int, j: int| 0 <= i < j < from@.len() ==> from@[i] != from@[j],
        sorted_by_x1(final(rooms)@),
        forall|i: int, j: int|
            0 <= i < j < from@.len() && final(rooms)@[i].x1 == final(rooms)@[j].x1 ==> from@[i]
                < from@[j],
{
    let ghost mut from: Seq<int> = Seq::new(rooms@.len(), |i: int| i);
    let n = rooms.len();
    let mut i: usize = 1;
    while i < n
        invariant
            n == rooms@.len(),
            n == old(rooms)@.len(),
            from.len() == n,
            1 <= i || n == 0,
            forall|k: int|
                0 <= k < n ==> 0 <= #[trigger] from[k] < n && rooms@[k] == old(rooms)@[from[k]],
            forall|a: int, b: int| 0 <= a < b < n ==> from[a] != from[b],
            forall|a: int, b: int| 0 <= a < b < i && b < n ==> rooms@[a].x1 <= rooms@[b].x1,
            forall|a: int, b: int|
                0 <= a < b < i && b < n && rooms@[a].x1 == rooms@[b].x1 ==> from[a] < from[b],
            forall|k: int| i <= k < n ==> from[k] == k,
            forall|k: int| 0 <= k < i && k < n ==> from[k] < i,
        decreases n - i,
    {
        let mut j: usize = i;
        while j > 0 && rooms[j - 1].x1 > rooms[j].x1
            invariant
                n == rooms@.len(),
                n == old(rooms)@.len(),
                from.len() == n,
                j <= i < n,
                forall|k: int|
                    0 <= k < n ==> 0 <= #[trigger] from[k] < n && rooms@[k] == old(rooms)@[from[k]],
                forall|a: int, b: int| 0 <= a < b < n ==> from[a] != from[b],
                forall|a: int, b: int|
                    0 <= a < b <= i && a != j && b != j ==> rooms@[a].x1 <= rooms@[b].x1,
                forall|a: int, b: int|
                    0 <= a < b <= i && a != j && b != j && rooms@[a].x1 == rooms@[b].x1 ==> from[a]
                        < from[b],
                forall|b: int| j < b <= i ==> rooms@[j as int].x1 < rooms@[b].x1,
                forall|a: int| 0 <= a < j ==> from[a] < from[j as int],
                forall|k: int| i < k < n ==> from[k] == k,
                forall|k: int| 0 <= k <= i ==> from[k] <= i,
                from[j as int] == i,
            decreases j,
        {
            let left = rooms[j - 1];
            let right = rooms[j];
            rooms[j - 1] = right;
            rooms[j] = left;
            proof {
                let a = from[j - 1];
                let b = from[j as int];
                from = from.update(j - 1, b).update(j as int, a);
            }
            j -= 1;
        }
        i += 1;
    }
    Ghost(from)
}

/// Scatters rooms over the map, each cut out of a pool of rectangles that
/// is refined wherever a room was placed, and joins the rooms from left to
/// right by corridors.
pub struct BspDungeonBuilder {
    pub rects: Vec<Rect>,
}

impl BspDungeonBuilder {
    pub fn new(new_depth: i32) -> (stage: Box<BspDungeonBuilder>)
        ensures
            stage.rects@.len() == 0,
    {
        Box::new(BspDungeonBuilder { rects: Vec::new() })
    }

    /// Adds the four quarters of `rect` to the pool.
    pub fn add_subrects(&mut self, rect: Rect)
        requires
            pool_ok(rect),
        ensures
            final(self).rects@ == old(self).rects@ + quarters(rect),
    {
        let half_w = rect.width() / 2;
        let half_h = rect.height() / 2;
        let half_width = if half_w >= 1 {
            half_w
        } else {
            1
        };
        let half_height = if half_h >= 1 {
            half_h
        } else {
            1
        };
        self.rects.push(Rect::new(rect.x1, rect.y1, half_width, half_height));
        self.rects.push(Rect::new(rect.x1, rect.y1 + half_height, half_width, half_height));
        self.rects.push(Rect::new(rect.x1 + half_width, rect.y1, half_width, half_height));
        self.rects.push(
            Rect::new(rect.x1 + half_width, rect.y1 + half_height, half_width, half_height),
        );
        proof {
            assert(self.rects@ =~= old(self).rects@ + quarters(rect));
        }
    }

    /// Picks a rectangle of the pool by the dice.
    pub fn get_random_rect(&mut self, rng: &mut RandomNumberGenerator) -> (rect: Rect)
        requires
            1 <= old(self).rects@.len() < i32::MAX,
        ensures
            final(self).rects == old(self).rects,
            old(self).rects@.contains(rect),
    {
        if self.rects.len() == 1 {
            return self.rects[0];
        }
        let idx: usize = (rng.roll_dice(1, self.rects.len() as i32) - 1) as usize;
        self.rects[idx]
    }

    /// Cuts a room out of `rect` by the dice.
    pub fn get_random_sub_rect(&self, rect: Rect, rng: &mut RandomNumberGenerator) -> (room: Rect)
        requires
            pool_ok(rect),
            rect.x1 < rect.x2,
            rect.y1 < rect.y2,
        ensures
            exists|w_roll: int, h_roll: int, dx_roll: int, dy_roll: int|
                1 <= w_roll <= spec_at_most(rect.x2 - rect.x1, 10) && 1 <= h_roll <= spec_at_most(
                    rect.y2 - rect.y1,
                    10,
                ) && 1 <= dx_roll <= 6 && 1 <= dy_roll <= 6 && room == #[trigger] spec_sub_rect(
                    rect,
                    w_roll,
                    h_roll,
                    dx_roll,
                    dy_roll,
                ),
    {
        let w_sides = if rect.width() < 10 {
            rect.width()
        } else {
            10
        };
        let h_sides = if rect.height() < 10 {
            rect.height()
        } else {
            10
        };
        let w_roll = rng.roll_dice(1, w_sides);
        let h_roll = rng.roll_dice(1, h_sides);
        let dx_roll = rng.roll_dice(1, 6);
        let dy_roll = rng.roll_dice(1, 6);
        let room = sub_rect(rect, w_roll, h_roll, dx_roll, dy_roll);
        proof {
            assert(room == spec_sub_rect(
                rect,
                w_roll as int,
                h_roll as int,
                dx_roll as int,
                dy_roll as int,
            ));
        }
        room
    }

    /// Inspects a rectangle to see if a room can go there.
    pub fn is_possible(&self, rect: Rect, map: &TileMap) -> (ok: bool)
        requires
            map.wf(),
        ensures
            ok == spec_possible(map.tiles@, map.width as int, map.height as int, rect),
    {
        let ghost w = map.width as int;
        let ghost h = map.height as int;
        let x_lo: i64 = rect.x1 as i64 - 2;
        let x_hi: i64 = rect.x2 as i64 + 2;
        let y_lo: i64 = rect.y1 as i64 - 2;
        let y_hi: i64 = rect.y2 as i64 + 2;
        let mut y: i64 = y_lo;
        while y <= y_hi
            invariant
                map.wf(),
                w == map.width,
                h == map.height,
                x_lo == rect.x1 - 2,
                x_hi == rect.x2 + 2,
                y_lo == rect.y1 - 2,
                y_hi == rect.y2 + 2,
                y_lo <= y,
                forall|cx: int, cy: int|
                    x_lo <= cx <= x_hi && y_lo <= cy < y ==> 1 <= cx <= w - 2 && 1 <= cy <= h - 2
                        && map.tiles@[#[trigger] cell_index(w, cx, cy)] == TileType::Wall,
            decreases y_hi + 1 - y,
        {
            let mut x: i64 = x_lo;
            while x <= x_hi
                invariant
                    map.wf(),
                    w == map.width,
                    h == map.height,
                    x_lo == rect.x1 - 2,
                    x_hi == rect.x2 + 2,
                    y_lo == rect.y1 - 2,
                    y_hi == rect.y2 + 2,
                    y_lo <= y <= y_hi,
                    x_lo <= x,
                    forall|cx: int, cy: int|
                        (x_lo <= cx <= x_hi && y_lo <= cy < y) || (cy == y && x_lo <= cx < x) ==> 1
                            <= cx <= w - 2 && 1 <= cy <= h - 2 && map.tiles@[#[trigger] cell_index(
                            w,
                            cx,
                            cy,
                        )] == TileType::Wall,
                decreases x_hi + 1 - x,
            {
                if x > map.width as i64 - 2 || x < 1 || y > map.height as i64 - 2 || y < 1 {
                    proof {
                        assert(!(1 <= x <= w - 2 && 1 <= y <= h - 2 && map.tiles@[cell_index(
                            w,
                            x as int,
                            y as int,
                        )] == TileType::Wall));
                    }
                    return false;
                }
                let idx = map.xy_idx(x as i32, y as i32);
                if map.tiles[idx] != TileType::Wall {
                    proof {
                        assert(!(map.tiles@[cell_index(w, x as int, y as int)]
                            == TileType::Wall));
                    }
                    return false;
                }
                x += 1;
            }
            y += 1;
        }
        true
    }

    /// Places rooms and joins them: `ATTEMPTS` times it picks a rectangle
    /// of the pool and cuts a room out of it; where the room can go, it is
    /// carved, and the quarters of the rectangle join the pool. The rooms,
    /// in the order of their left edges, are then joined each to the next
    /// by a corridor between cells that the dice pick.
    #[verifier::rlimit(50)]
    pub fn build(&mut self, rng: &mut RandomNumberGenerator, build_data: &mut BuildData)
        requires
            old(build_data).wf(),
            old(build_data).map.width >= 6,
            old(build_data).map.height >= 6,
        ensures
            final(build_data).wf(),
            final(build_data).map.same_but_tiles(&old(build_data).map),
            dug(
                old(build_data).map.tiles@,
                final(build_data).map.tiles@,
                old(build_data).map.width as int,
                old(build_data).map.height as int,
            ),
            old(build_data).map.border_closed() ==> final(build_data).map.border_closed(),
            final(build_data).rooms is Some,
            final(build_data).rooms->0@.len() <= ATTEMPTS,
            exists|placed: Seq<Rect>, carved: Seq<TileType>, from: Seq<int>|
                #[trigger] bsp_rooms_tried(
                    old(build_data).map.width as int,
                    old(build_data).map.height as int,
                    start_pool(old(build_data).map.width as int, old(build_data).map.height as int),
                    old(build_data).map.tiles@,
                    final(self).rects@,
                    carved,
                    placed,
                    ATTEMPTS as int,
                ) && #[trigger] is_sorting(placed, final(build_data).rooms->0@, from) && dug(
                    carved,
                    final(build_data).map.tiles@,
                    old(build_data).map.width as int,
                    old(build_data).map.height as int,
                ),
            sorted_by_x1(final(build_data).rooms->0@),
            rooms_apart(final(build_data).rooms->0@),
            forall|k: int|
                0 <= k < final(build_data).rooms->0@.len() ==> room_inside(
                    #[trigger] final(build_data).rooms->0@[k],
                    old(build_data).map.width as int,
                    old(build_data).map.height as int,
                ),
            rooms_carved(
                final(build_data).map.tiles@,
                old(build_data).map.width as int,
                final(build_data).rooms->0@,
            ),
            rooms_linked(
                final(build_data).map.tiles@,
                old(build_data).map.width as int,
                final(build_data).rooms->0@,
                final(build_data).rooms->0@.len() as int,
            ),
            final(build_data).spawn_list == old(build_data).spawn_list,
            final(build_data).start == old(build_data).start,
            final(build_data).extends_history(old(build_data)),
            final(build_data).grew_by(
                old(build_data),
                if final(build_data).rooms->0@.len() > 0 {
                    2 * final(build_data).rooms->0@.len() - 1
                } else {
                    0int
                },
            ),
            final(build_data).rooms->0@.len() > 0 ==> final(build_data).shows_map(),
    {
        let ghost w = build_data.map.width as int;
        let ghost h = build_data.map.height as int;
        let ghost before = build_data.map.tiles@;
        let mut rooms: Vec<Rect> = Vec::new();
        self.rects.clear();
        let whole = Rect::new(2, 2, build_data.map.width - 5, build_data.map.height - 5);
        self.rects.push(whole);
        self.add_subrects(whole);
        let ghost pool_0 = self.rects@;
        proof {
            assert(pool_0 =~= start_pool(w, h));
        }
        let mut n_rooms: i32 = 0;
        while n_rooms < ATTEMPTS
            invariant
                pool_0 == start_pool(w, h),
                bsp_rooms_tried(
                    w,
                    h,
                    pool_0,
                    before,
                    self.rects@,
                    build_data.map.tiles@,
                    rooms@,
                    n_rooms as int,
                ),
                build_data.wf(),
                build_data.map.same_but_tiles(&old(build_data).map),
                w == build_data.map.width,
                h == build_data.map.height,
                before == old(build_data).map.tiles@,
                dug(before, build_data.map.tiles@, w, h),
                0 <= n_rooms <= ATTEMPTS,
                1 <= self.rects@.len() <= 5 + 4 * n_rooms,
                forall|k: int| 0 <= k < self.rects@.len() ==> in_pool(#[trigger] self.rects@[k]),
                rooms@.len() <= n_rooms,
                rooms_apart(rooms@),
                forall|k: int| 0 <= k < rooms@.len() ==> room_inside(#[trigger] rooms@[k], w, h),
                rooms_carved(build_data.map.tiles@, w, rooms@),
                build_data.spawn_list == old(build_data).spawn_list,
                build_data.start == old(build_data).start,
                build_data.rooms == old(build_data).rooms,
                build_data.extends_history(old(build_data)),
                build_data.grew_by(old(build_data), rooms@.len() as int),
                rooms@.len() > 0 ==> build_data.shows_map(),
            decreases ATTEMPTS - n_rooms,
        {
            let ghost pool_then = self.rects@;
            let ghost tiles_then = build_data.map.tiles@;
            let ghost rooms_then_0 = rooms@;
            let rect = self.get_random_rect(rng);
            let ghost at = choose|k: int| 0 <= k < self.rects@.len() && self.rects@[k] == rect;
            proof {
                assert(in_pool(self.rects@[at]));
            }
            let candidate = self.get_random_sub_rect(rect, rng);
            if self.is_possible(candidate, &build_data.map) {
                let ghost tiles_0 = build_data.map.tiles@;
                proof {
                    assert(tiles_0[cell_index(w, candidate.x1 - 2, candidate.y1 - 2)]
                        == TileType::Wall);
                    assert(tiles_0[cell_index(w, candidate.x2 + 2, candidate.y2 + 2)]
                        == TileType::Wall);
                    assert forall|k: int| 0 <= k < rooms@.len() implies !(
                    #[trigger] rooms@[k]).spec_intersect(candidate) by {
                        let other = rooms@[k];
                        if other.spec_intersect(candidate) {
                            let cx = spec_at_least(other.x1 + 1, candidate.x1 - 2);
                            let cy = spec_at_least(other.y1 + 1, candidate.y1 - 2);
                            assert(room_inside(other, w, h));
                            lemma_cell_unique(w, h, cx, cy);
                            let i = cell_index(w, cx, cy);
                            assert(in_room(other, col_of(w, i), row_of(w, i)));
                            assert(tiles_0[i] == TileType::Floor);
                            assert(tiles_0[cell_index(w, cx, cy)] == TileType::Wall);
                        }
                    }
                }
                apply_room_to_map(&mut build_data.map, &candidate);
                proof {
                    assert(build_data.map.tiles@ =~= room_dug(tiles_0, w, candidate));
                }
                let ghost rooms_then = rooms@;
                rooms.push(candidate);
                self.add_subrects(rect);
                proof {
                    let tiles_1 = build_data.map.tiles@;
                    lemma_overlaid_dug(
                        tiles_0,
                        tiles_1,
                        w,
                        h,
                        |cx: int, cy: int| in_room(candidate, cx, cy),
                    );
                    lemma_dug_twice(before, tiles_0, tiles_1, w, h);
                    assert forall|k: int, i: int|
                        0 <= k < rooms@.len() && 0 <= i < tiles_1.len() && in_room(
                            #[trigger] rooms@[k],
                            col_of(w, i),
                            row_of(w, i),
                        ) implies #[trigger] tiles_1[i] == TileType::Floor by {
                        if k < rooms_then.len() {
                            assert(in_room(rooms_then[k], col_of(w, i), row_of(w, i)));
                            assert(tiles_0[i] == TileType::Floor);
                        }
                    }
                    assert forall|k: int| 0 <= k < self.rects@.len() implies in_pool(
                        #[trigger] self.rects@[k],
                    ) by {
                        let added = quarters(rect);
                        let base = self.rects@.len() - 4;
                        if k >= base {
                            assert(self.rects@[k] == added[k - base]);
                        }
                    }
                    assert forall|a: int, b: int| 0 <= a < b < rooms@.len() implies !(
                    #[trigger] rooms@[a]).spec_intersect(#[trigger] rooms@[b]) by {
                        if b == rooms_then.len() {
                            assert(!rooms_then[a].spec_intersect(candidate));
                        }
                    }
                }
                build_data.take_snapshot();
            }
            proof {
                lemma_bsp_step(
                    w,
                    h,
                    pool_0,
                    before,
                    pool_then,
                    tiles_then,
                    rooms_then_0,
                    at,
                    candidate,
                    self.rects@,
                    build_data.map.tiles@,
                    rooms@,
                    n_rooms as int,
                );
            }
            n_rooms += 1;
        }
        let ghost unsorted = rooms@;
        let ghost carved = build_data.map.tiles@;
        let ghost pool_last = self.rects@;
        let from = sort_by_x1(&mut rooms);
        proof {
            assert(is_sorting(unsorted, rooms@, from@));
            assert(dug(carved, carved, w, h));
        }
        proof {
            assert forall|a: int, b: int| 0 <= a < b < rooms@.len() implies !(
            #[trigger] rooms@[a]).spec_intersect(#[trigger] rooms@[b]) by {
                let fa = from@[a];
                let fb = from@[b];
                assert(rooms@[a] == unsorted[fa] && rooms@[b] == unsorted[fb]);
                if fa < fb {
                    assert(!unsorted[fa].spec_intersect(unsorted[fb]));
                } else {
                    assert(!unsorted[fb].spec_intersect(unsorted[fa]));
                }
            }
            assert forall|k: int| 0 <= k < rooms@.len() implies room_inside(
                #[trigger] rooms@[k],
                w,
                h,
            ) by {
                assert(rooms@[k] == unsorted[from@[k]]);
            }
            assert forall|k: int, i: int|
                0 <= k < rooms@.len() && 0 <= i < build_data.map.tiles@.len() && in_room(
                    #[trigger] rooms@[k],
                    col_of(w, i),
                    row_of(w, i),
                ) implies #[trigger] build_data.map.tiles@[i] == TileType::Floor by {
                assert(rooms@[k] == unsorted[from@[k]]);
                assert(in_room(unsorted[from@[k]], col_of(w, i), row_of(w, i)));
            }
        }
        let mut i: usize = 0;
        while rooms.len() > 0 && i < rooms.len() - 1
            invariant
                self.rects@ == pool_last,
                dug(carved, build_data.map.tiles@, w, h),
                build_data.wf(),
                build_data.map.same_but_tiles(&old(build_data).map),
                w == build_data.map.width,
                h == build_data.map.height,
                before == old(build_data).map.tiles@,
                dug(before, build_data.map.tiles@, w, h),
                i <= rooms@.len(),
                rooms@.len() <= ATTEMPTS,
                sorted_by_x1(rooms@),
                rooms_apart(rooms@),
                forall|k: int| 0 <= k < rooms@.len() ==> room_inside(#[trigger] rooms@[k], w, h),
                rooms_carved(build_data.map.tiles@, w, rooms@),
                rooms_linked(build_data.map.tiles@, w, rooms@, i as int),
                build_data.spawn_list == old(build_data).spawn_list,
                build_data.start == old(build_data).start,
                build_data.rooms == old(build_data).rooms,
                build_data.extends_history(old(build_data)),
                build_data.grew_by(old(build_data), rooms@.len() + i),
                rooms@.len() > 0 ==> i <= rooms@.len() - 1,
                rooms@.len() == 0 ==> i == 0,
                rooms@.len() > 0 ==> build_data.shows_map(),
            decreases rooms@.len() - i,
        {
            let room = rooms[i];
            let next = rooms[i + 1];
            assert(room_inside(room, w, h) && room_inside(next, w, h));
            let ghost tiles_0 = build_data.map.tiles@;
            BspDungeonBuilder::link(&mut build_data.map, room, next, rng);
            proof {
                let tiles_1 = build_data.map.tiles@;
                lemma_dug_twice(before, tiles_0, tiles_1, w, h);
                lemma_dug_twice(carved, tiles_0, tiles_1, w, h);
                lemma_dug_keeps_rooms(tiles_0, tiles_1, w, h, rooms@);
                lemma_dug_keeps_links(tiles_0, tiles_1, w, h, rooms@, i as int);
                assert(crate::common::link_at(tiles_1, w, rooms@, i as int));
            }
            build_data.take_snapshot();
            i += 1;
        }
        build_data.rooms = Some(rooms);
        proof {
            assert(bsp_rooms_tried(
                w,
                h,
                start_pool(w, h),
                before,
                self.rects@,
                carved,
                unsorted,
                ATTEMPTS as int,
            ));
            assert(is_sorting(unsorted, build_data.rooms->0@, from@));
            if old(build_data).map.border_closed() {
                lemma_dug_keeps_border(before, build_data.map.tiles@, w, h);
            }
        }
    }

    /// Digs a corridor from a cell of `room` to a cell of `next`, both
    /// picked by the dice.
    pub fn link(map: &mut TileMap, room: Rect, next: Rect, rng: &mut RandomNumberGenerator)
        requires
            old(map).wf(),
            room_inside(room, old(map).width as int, old(map).height as int),
            room_inside(next, old(map).width as int, old(map).height as int),
        ensures
            final(map).wf(),
            final(map).same_but_tiles(old(map)),
            dug(
                old(map).tiles@,
                final(map).tiles@,
                old(map).width as int,
                old(map).height as int,
            ),
            crate::common::linked(final(map).tiles@, old(map).width as int, room, next),
    {
        let ghost w = map.width as int;
        let ghost h = map.height as int;
        let start_x = room.x1 + (rng.roll_dice(1, room.width()) - 1);
        let start_y = room.y1 + (rng.roll_dice(1, room.height()) - 1);
        let end_x = next.x1 + (rng.roll_dice(1, next.width()) - 1);
        let end_y = next.y1 + (rng.roll_dice(1, next.height()) - 1);
        BspDungeonBuilder::draw_corridor(map, start_x, start_y, end_x, end_y);
        proof {
            lemma_overlaid_dug(
                old(map).tiles@,
                map.tiles@,
                w,
                h,
                |cx: int, cy: int|
                    on_corridor(start_x as int, start_y as int, end_x as int, end_y as int, cx, cy),
            );
            assert(corridor_floor(
                map.tiles@,
                w,
                start_x as int,
                start_y as int,
                end_x as int,
                end_y as int,
            ));
        }
    }

    /// Digs a corridor from `(x1, y1)` to `(x2, y2)`, first along the row,
    /// then along the column.
    pub fn draw_corridor(map: &mut TileMap, x1: i32, y1: i32, x2: i32, y2: i32)
        requires
            old(map).wf(),
            0 <= x1 < old(map).width,
            0 <= x2 < old(map).width,
            0 <= y1 < old(map).height,
            0 <= y2 < old(map).height,
        ensures
            final(map).wf(),
            final(map).same_but_tiles(old(map)),
            crate::tile_map::overlaid(
                old(map).tiles@,
                final(map).tiles@,
                old(map).width as int,
                |cx: int, cy: int| on_corridor(x1 as int, y1 as int, x2 as int, y2 as int, cx, cy),
                TileType::Floor,
            ),
    {
        crate::common::draw_corridor(map, x1, y1, x2, y2);
    }
}

impl InitialMapBuilder for BspDungeonBuilder {
    open spec fn initial_outcome(
        &self,
        before: &BuildData,
        after: &BuildData,
        result: Result<(), BuildError>,
    ) -> bool {
        match result {
            Err(error) => error == BuildError::MapTooSmall && (before.map.width < 6
                || before.map.height < 6),
            Ok(_) => {
                &&& crate::room_based_gen::last_room_open(after)
                &&& before.map.border_closed() ==> after.map.border_closed()
                &&& !(before.map.width < 6 || before.map.height < 6)
                &&& dug(
                    before.map.tiles@,
                    after.map.tiles@,
                    before.map.width as int,
                    before.map.height as int,
                )
                &&& after.spawn_list == before.spawn_list
                &&& after.start == before.start
                &&& after.rooms is Some
                &&& exists|
                    pool: Seq<Rect>,
                    placed: Seq<Rect>,
                    carved: Seq<TileType>,
                    from: Seq<int>,
                |
                    #[trigger] bsp_rooms_tried(
                        before.map.width as int,
                        before.map.height as int,
                        start_pool(before.map.width as int, before.map.height as int),
                        before.map.tiles@,
                        pool,
                        carved,
                        placed,
                        ATTEMPTS as int,
                    ) && #[trigger] is_sorting(placed, after.rooms->0@, from) && dug(
                        carved,
                        after.map.tiles@,
                        before.map.width as int,
                        before.map.height as int,
                    )
                &&& sorted_by_x1(after.rooms->0@)
                &&& rooms_apart(after.rooms->0@)
                &&& rooms_carved(after.map.tiles@, before.map.width as int, after.rooms->0@)
                &&& rooms_linked(
                    after.map.tiles@,
                    before.map.width as int,
                    after.rooms->0@,
                    after.rooms->0@.len() as int,
                )
            },
        }
    }

    fn build_map(&mut self, rng: &mut RandomNumberGenerator, build_data: &mut BuildData) -> (result:
        Result<(), BuildError>)
        ensures
            result is Err <==> old(build_data).map.width < 6 || old(build_data).map.height < 6,
    {
        if build_data.map.width < 6 || build_data.map.height < 6 {
            return Err(BuildError::MapTooSmall);
        }
        self.build(rng, build_data);
        proof {
            let rooms = build_data.rooms->0@;
            if rooms.len() > 0 {
                assert(room_inside(
                    rooms[rooms.len() - 1],
                    build_data.map.width as int,
                    build_data.map.height as int,
                ));
                crate::room_based_gen::lemma_carved_room_open(build_data);
            }
        }
        Ok(())
    }
}

} // verus!
