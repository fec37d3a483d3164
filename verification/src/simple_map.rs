use crate::build_data::{BuildData, BuildError};
use crate::chain::InitialMapBuilder;
use crate::common::{
    apply_horizontal_tunnel, apply_room_to_map, apply_vertical_tunnel, between, in_room,
};
use crate::random::random_range;
use crate::rect::Rect;
use crate::tile_map::{
    col_of, dug, is_interior, lemma_dug_keeps_border, lemma_dug_twice, lemma_overlaid_dug,
    overlaid, row_of, TileMap, TileType,
};
use rltk::RandomNumberGenerator;
use vstd::prelude::*;

verus! {

/// How many rooms the stage tries to place.
pub const MAX_ROOMS: i32 = 30;

/// The smallest side of a room.
pub const MIN_SIZE: i32 = 6;

/// One more than the largest side of a room.
pub const MAX_SIZE: i32 = 10;

/// The narrowest and lowest map on which every room the dice can give
/// still fits.
pub const MIN_MAP_SIDE: i32 = 11;

/// Whether no two of the rooms share a point.
pub open spec fn rooms_apart(rooms: Seq<Rect>) -> bool {
    forall|i: int, j: int|
        0 <= i < j < rooms.len() ==> !(#[trigger] rooms[i]).spec_intersect(#[trigger] rooms[j])
}

/// Whether every cell of every room is floor.
pub open spec fn rooms_carved(tiles: Seq<TileType>, width: int, rooms: Seq<Rect>) -> bool {
    forall|k: int, i: int|
        0 <= k < rooms.len() && 0 <= i < tiles.len() && in_room(
            #[trigger] rooms[k],
            col_of(width, i),
            row_of(width, i),
        ) ==> #[trigger] tiles[i] == TileType::Floor
}

/// Whether the room lies off the map's border and is of a size that the
/// stage gives its rooms.
pub open spec fn room_placed(room: Rect, width: int, height: int) -> bool {
    &&& 0 <= room.x1
    &&& 0 <= room.y1
    &&& room.x2 <= width - 2
    &&& room.y2 <= height - 2
    &&& MIN_SIZE <= room.x2 - room.x1 < MAX_SIZE
    &&& MIN_SIZE <= room.y2 - room.y1 < MAX_SIZE
}

/// The cells of the bent corridor between `(x1, y1)` and `(x2, y2)`: along
/// the row of the one and the column of the other.
pub open spec fn on_bend(
    x1: int,
    y1: int,
    x2: int,
    y2: int,
    horizontal_first: bool,
    x: int,
    y: int,
) -> bool {
    if horizontal_first {
        (y == y1 && between(x1, x2, x)) || (x == x2 && between(y1, y2, y))
    } else {
        (x == x1 && between(y1, y2, y)) || (y == y2 && between(x1, x2, x))
    }
}

/// Whether every cell of the bent corridor between the two points is
/// floor.
pub open spec fn bend_floor(
    tiles: Seq<TileType>,
    width: int,
    x1: int,
    y1: int,
    x2: int,
    y2: int,
    horizontal_first: bool,
) -> bool {
    forall|i: int|
        0 <= i < tiles.len() && on_bend(
            x1,
            y1,
            x2,
            y2,
            horizontal_first,
            col_of(width, i),
            row_of(width, i),
        ) ==> #[trigger] tiles[i] == TileType::Floor
}

/// Whether a bent corridor of floor runs from the middle of room `k` to
/// the middle of the next, along the row first or along the column first.
pub open spec fn joined_at(tiles: Seq<TileType>, width: int, rooms: Seq<Rect>, k: int) -> bool {
    let a = rooms[k].spec_center();
    let b = rooms[k + 1].spec_center();
    bend_floor(tiles, width, a.0, a.1, b.0, b.1, true) || bend_floor(
        tiles,
        width,
        a.0,
        a.1,
        b.0,
        b.1,
        false,
    )
}

/// Whether each room is joined to the next.
pub open spec fn rooms_joined(tiles: Seq<TileType>, width: int, rooms: Seq<Rect>) -> bool {
    forall|k: int| 0 <= k < rooms.len() - 1 ==> #[trigger] joined_at(tiles, width, rooms, k)
}

/// What is floor stays floor where tiles are dug.
pub proof fn lemma_dug_keeps_bend(
    before: Seq<TileType>,
    after: Seq<TileType>,
    width: int,
    height: int,
    x1: int,
    y1: int,
    x2: int,
    y2: int,
    horizontal_first: bool,
)
    requires
        dug(before, after, width, height),
        bend_floor(before, width, x1, y1, x2, y2, horizontal_first),
    ensures
        bend_floor(after, width, x1, y1, x2, y2, horizontal_first),
{
    assert forall|i: int|
        0 <= i < after.len() && on_bend(
            x1,
            y1,
            x2,
            y2,
            horizontal_first,
            col_of(width, i),
            row_of(width, i),
        ) implies #[trigger] after[i] == TileType::Floor by {
        assert(before[i] == TileType::Floor);
    }
}

/// Rooms that are carved stay carved where tiles are dug.
pub proof fn lemma_dug_keeps_rooms(
    before: Seq<TileType>,
    after: Seq<TileType>,
    width: int,
    height: int,
    rooms: Seq<Rect>,
)
    requires
        dug(before, after, width, height),
        rooms_carved(before, width, rooms),
    ensures
        rooms_carved(after, width, rooms),
{
    assert forall|k: int, i: int|
        0 <= k < rooms.len() && 0 <= i < after.len() && in_room(
            #[trigger] rooms[k],
            col_of(width, i),
            row_of(width, i),
        ) implies #[trigger] after[i] == TileType::Floor by {
        assert(before[i] == TileType::Floor);
    }
}

/// The tiles with the cells of `room` dug.
pub open spec fn room_dug(tiles: Seq<TileType>, width: int, room: Rect) -> Seq<TileType> {
    Seq::new(
        tiles.len(),
        |i: int|
            if in_room(room, col_of(width, i), row_of(width, i)) {
                TileType::Floor
            } else {
                tiles[i]
            },
    )
}

/// The tiles with the bent corridor from `from` to `to` dug.
pub open spec fn bend_dug(
    tiles: Seq<TileType>,
    width: int,
    from: (int, int),
    to: (int, int),
    horizontal_first: bool,
) -> Seq<TileType> {
    Seq::new(
        tiles.len(),
        |i: int|
            if on_bend(
                from.0,
                from.1,
                to.0,
                to.1,
                horizontal_first,
                col_of(width, i),
                row_of(width, i),
            ) {
                TileType::Floor
            } else {
                tiles[i]
            },
    )
}

/// Whether `room` shares no point with any of `rooms`.
pub open spec fn spec_fits_among(rooms: Seq<Rect>, room: Rect) -> bool {
    forall|i: int| 0 <= i < rooms.len() ==> !room.spec_intersect(#[trigger] rooms[i])
}

/// Whether `after` and `rooms_after` are what the try of `room` makes of
/// `tiles` and `rooms`: nothing where the room shares a point with a room
/// that is there; else the room is dug and listed, and joined to the
/// room listed before it by a bent corridor between their middles, along
/// the row first if `toss`.
pub open spec fn room_added(
    width: int,
    tiles: Seq<TileType>,
    rooms: Seq<Rect>,
    room: Rect,
    toss: bool,
    after: Seq<TileType>,
    rooms_after: Seq<Rect>,
) -> bool {
    if spec_fits_among(rooms, room) {
        &&& rooms_after == rooms.push(room)
        &&& after == if rooms.len() > 0 {
            bend_dug(
                room_dug(tiles, width, room),
                width,
                rooms.last().spec_center(),
                room.spec_center(),
                toss,
            )
        } else {
            room_dug(tiles, width, room)
        }
    } else {
        after == tiles && rooms_after == rooms
    }
}

/// Whether `after` and `rooms_after` are what one try makes of `tiles`
/// and `rooms`: the try of a room of a size and at a place that the dice
/// can give.
pub open spec fn room_tried(
    width: int,
    height: int,
    tiles: Seq<TileType>,
    rooms: Seq<Rect>,
    after: Seq<TileType>,
    rooms_after: Seq<Rect>,
) -> bool {
    exists|room: Rect, toss: bool|
        room_placed(room, width, height) && #[trigger] room_added(
            width,
            tiles,
            rooms,
            room,
            toss,
            after,
            rooms_after,
        )
}

/// Whether `last` and `rooms_last` are what `n` tries, one after the
/// other, make of `first` and no rooms.
pub open spec fn rooms_tried(
    width: int,
    height: int,
    first: Seq<TileType>,
    last: Seq<TileType>,
    rooms_last: Seq<Rect>,
    n: int,
) -> bool
    decreases n,
{
    if n <= 0 {
        last == first && rooms_last == Seq::<Rect>::empty()
    } else {
        exists|mid: Seq<TileType>, rooms_mid: Seq<Rect>|
            rooms_tried(width, height, first, mid, rooms_mid, n - 1) && #[trigger] room_tried(
                width,
                height,
                mid,
                rooms_mid,
                last,
                rooms_last,
            )
    }
}

/// Whether `room` shares no point with any of `rooms`.
pub fn fits_among(rooms: &Vec<Rect>, room: &Rect) -> (ok: bool)
    ensures
        ok == spec_fits_among(rooms@, *room),
{
    let mut i: usize = 0;
    while i < rooms.len()
        invariant
            i <= rooms@.len(),
            forall|j: int| 0 <= j < i ==> !room.spec_intersect(#[trigger] rooms@[j]),
        decreases rooms@.len() - i,
    {
        if room.intersect(&rooms[i]) {
            return false;
        }
        i += 1;
    }
    true
}

/// Digs the bent corridor from `(prev_x, prev_y)` to `(new_x, new_y)`:
/// along the row first, or along the column first.
pub fn connect(
    map: &mut TileMap,
    prev_x: i32,
    prev_y: i32,
    new_x: i32,
    new_y: i32,
    horizontal_first: bool,
)
    requires
        old(map).wf(),
        is_interior(old(map).width as int, old(map).height as int, prev_x as int, prev_y as int),
        is_interior(old(map).width as int, old(map).height as int, new_x as int, new_y as int),
    ensures
        final(map).wf(),
        final(map).same_but_tiles(old(map)),
        overlaid(
            old(map).tiles@,
            final(map).tiles@,
            old(map).width as int,
            |x: int, y: int|
                on_bend(
                    prev_x as int,
                    prev_y as int,
                    new_x as int,
                    new_y as int,
                    horizontal_first,
                    x,
                    y,
                ),
            TileType::Floor,
        ),
        dug(
            old(map).tiles@,
            final(map).tiles@,
            old(map).width as int,
            old(map).height as int,
        ),
{
    if horizontal_first {
        apply_horizontal_tunnel(map, prev_x, new_x, prev_y);
        apply_vertical_tunnel(map, prev_y, new_y, new_x);
    } else {
        apply_vertical_tunnel(map, prev_y, new_y, prev_x);
        apply_horizontal_tunnel(map, prev_x, new_x, new_y);
    }
}

/// Carves rooms that keep apart from each other and joins each to the one
/// before it by a bent corridor.
pub struct SimpleMapBuilder {}

impl SimpleMapBuilder {
    pub fn new() -> (stage: Box<SimpleMapBuilder>) {
        Box::new(SimpleMapBuilder {  })
    }

    /// Tries `MAX_ROOMS` times to place a room of random size at a random
    /// place; a room that shares no point with those placed before is
    /// carved and joined to the last one by a corridor that, by the toss
    /// of a coin, runs along the row or the column first.
    pub fn rooms_and_corridors(
        &mut self,
        rng: &mut RandomNumberGenerator,
        build_data: &mut BuildData,
    )
        requires
            old(build_data).wf(),
            old(build_data).map.width >= MIN_MAP_SIDE,
            old(build_data).map.height >= MIN_MAP_SIDE,
        ensures
            final(build_data).wf(),
            final(build_data).map.same_but_tiles(&old(build_data).map),
            dug(
                old(build_data).map.tiles@,
                final(build_data).map.tiles@,
                old(build_data).map.width as int,
                old(build_data).map.height as int,
            ),
            old(build_data).map.border_closed() ==> final(build_data).map.border_closed(),
            final(build_data).rooms is Some,
            1 <= final(build_data).rooms->0@.len() <= MAX_ROOMS,
            rooms_tried(
                old(build_data).map.width as int,
                old(build_data).map.height as int,
                old(build_data).map.tiles@,
                final(build_data).map.tiles@,
                final(build_data).rooms->0@,
                MAX_ROOMS as int,
            ),
            rooms_apart(final(build_data).rooms->0@),
            forall|k: int|
                0 <= k < final(build_data).rooms->0@.len() ==> room_placed(
                    #[trigger] final(build_data).rooms->0@[k],
                    old(build_data).map.width as int,
                    old(build_data).map.height as int,
                ),
            rooms_carved(
                final(build_data).map.tiles@,
                old(build_data).map.width as int,
                final(build_data).rooms->0@,
            ),
            rooms_joined(
                final(build_data).map.tiles@,
                old(build_data).map.width as int,
                final(build_data).rooms->0@,
            ),
            final(build_data).spawn_list == old(build_data).spawn_list,
            final(build_data).start == old(build_data).start,
            final(build_data).extends_history(old(build_data)),
            final(build_data).grew_by(old(build_data), 2 * (final(build_data).rooms->0@.len() as int)),
            final(build_data).shows_map(),
    {
        let ghost w = build_data.map.width as int;
        let ghost h = build_data.map.height as int;
        let ghost before = build_data.map.tiles@;
        let mut rooms: Vec<Rect> = Vec::new();
        let mut tries: i32 = 0;
        while tries < MAX_ROOMS
            invariant
                build_data.wf(),
                build_data.map.same_but_tiles(&old(build_data).map),
                w == build_data.map.width,
                h == build_data.map.height,
                w >= MIN_MAP_SIDE,
                h >= MIN_MAP_SIDE,
                before == old(build_data).map.tiles@,
                dug(before, build_data.map.tiles@, w, h),
                0 <= tries <= MAX_ROOMS,
                rooms_tried(w, h, before, build_data.map.tiles@, rooms@, tries as int),
                rooms@.len() <= tries,
                tries >= 1 ==> rooms@.len() >= 1,
                rooms_apart(rooms@),
                forall|k: int| 0 <= k < rooms@.len() ==> room_placed(#[trigger] rooms@[k], w, h),
                rooms_carved(build_data.map.tiles@, w, rooms@),
                rooms_joined(build_data.map.tiles@, w, rooms@),
                build_data.spawn_list == old(build_data).spawn_list,
                build_data.start == old(build_data).start,
                build_data.rooms == old(build_data).rooms,
                build_data.extends_history(old(build_data)),
                build_data.grew_by(old(build_data), 2 * (rooms@.len() as int)),
                rooms@.len() > 0 ==> build_data.shows_map(),
            decreases MAX_ROOMS - tries,
        {
            let rw = random_range(rng, MIN_SIZE, MAX_SIZE);
            let rh = random_range(rng, MIN_SIZE, MAX_SIZE);
            let x = rng.roll_dice(1, build_data.map.width - rw - 1) - 1;
            let y = rng.roll_dice(1, build_data.map.height - rh - 1) - 1;
            let new_room = Rect::new(x, y, rw, rh);
            let ok: bool = fits_among(&rooms, &new_room);
            let ghost tiles_then = build_data.map.tiles@;
            let ghost rooms_at_try = rooms@;
            let ghost mut tossed = false;
            if ok {
                let ghost tiles_0 = build_data.map.tiles@;
                apply_room_to_map(&mut build_data.map, &new_room);
                let ghost tiles_1 = build_data.map.tiles@;
                proof {
                    assert(tiles_1 =~= room_dug(tiles_0, w, new_room));
                    lemma_overlaid_dug(
                        tiles_0,
                        tiles_1,
                        w,
                        h,
                        |cx: int, cy: int| in_room(new_room, cx, cy),
                    );
                    lemma_dug_twice(before, tiles_0, tiles_1, w, h);
                }
                build_data.take_snapshot();
                if rooms.len() > 0 {
                    let (new_x, new_y) = new_room.center();
                    let prev_room = rooms[rooms.len() - 1];
                    assert(room_placed(prev_room, w, h));
                    let (prev_x, prev_y) = prev_room.center();
                    let toss = random_range(rng, 0, 2) == 1;
                    connect(&mut build_data.map, prev_x, prev_y, new_x, new_y, toss);
                    proof {
                        tossed = toss;
                        lemma_dug_twice(before, tiles_1, build_data.map.tiles@, w, h);
                        assert(build_data.map.tiles@ =~= bend_dug(
                            tiles_1,
                            w,
                            prev_room.spec_center(),
                            new_room.spec_center(),
                            toss,
                        ));
                    }
                }
                let ghost rooms_then = rooms@;
                rooms.push(new_room);
                proof {
                    let tiles_2 = build_data.map.tiles@;
                    assert(dug(tiles_1, tiles_2, w, h)) by {
                        if rooms_then.len() == 0 {
                            assert(tiles_1 =~= tiles_2);
                        }
                    }
                    lemma_dug_twice(tiles_0, tiles_1, tiles_2, w, h);
                    assert forall|k: int| 0 <= k < rooms@.len() - 1 implies #[trigger] joined_at(
                        tiles_2,
                        w,
                        rooms@,
                        k,
                    ) by {
                        let a = rooms@[k].spec_center();
                        let b = rooms@[k + 1].spec_center();
                        if k < rooms_then.len() - 1 {
                            assert(rooms@[k] == rooms_then[k]
                                && rooms@[k + 1] == rooms_then[k + 1]);
                            assert(joined_at(tiles_0, w, rooms_then, k));
                            if bend_floor(tiles_0, w, a.0, a.1, b.0, b.1, true) {
                                lemma_dug_keeps_bend(
                                    tiles_0,
                                    tiles_2,
                                    w,
                                    h,
                                    a.0,
                                    a.1,
                                    b.0,
                                    b.1,
                                    true,
                                );
                            } else {
                                lemma_dug_keeps_bend(
                                    tiles_0,
                                    tiles_2,
                                    w,
                                    h,
                                    a.0,
                                    a.1,
                                    b.0,
                                    b.1,
                                    false,
                                );
                            }
                        } else {
                            assert(rooms@[k] == rooms_then[k]);
                            assert(room_placed(rooms_then[k], w, h));
                        }
                    }
                    assert forall|k: int, i: int|
                        0 <= k < rooms@.len() && 0 <= i < tiles_2.len() && in_room(
                            #[trigger] rooms@[k],
                            col_of(w, i),
                            row_of(w, i),
                        ) implies #[trigger] tiles_2[i] == TileType::Floor by {
                        assert(tiles_1[i] == tiles_0[i] || tiles_1[i] == TileType::Floor);
                        assert(tiles_2[i] == tiles_1[i] || tiles_2[i] == TileType::Floor);
                        if k < rooms_then.len() {
                            assert(in_room(rooms_then[k], col_of(w, i), row_of(w, i)));
                            assert(tiles_0[i] == TileType::Floor);
                        }
                    }
                }
                build_data.take_snapshot();
            }
            proof {
                assert(room_placed(new_room, w, h));
                assert(room_added(
                    w,
                    tiles_then,
                    rooms_at_try,
                    new_room,
                    tossed,
                    build_data.map.tiles@,
                    rooms@,
                ));
                assert(room_tried(
                    w,
                    h,
                    tiles_then,
                    rooms_at_try,
                    build_data.map.tiles@,
                    rooms@,
                ));
                assert(rooms_tried(w, h, before, tiles_then, rooms_at_try, tries + 1 - 1));
                assert(rooms_tried(w, h, before, build_data.map.tiles@, rooms@, tries + 1));
            }
            tries += 1;
        }
        build_data.rooms = Some(rooms);
        proof {
            if old(build_data).map.border_closed() {
                lemma_dug_keeps_border(before, build_data.map.tiles@, w, h);
            }
        }
    }
}

impl InitialMapBuilder for SimpleMapBuilder {
    open spec fn initial_outcome(
        &self,
        before: &BuildData,
        after: &BuildData,
        result: Result<(), BuildError>,
    ) -> bool {
        match result {
            Err(error) => error == BuildError::MapTooSmall && (before.map.width < MIN_MAP_SIDE
                || before.map.height < MIN_MAP_SIDE),
            Ok(_) => {
                &&& crate::room_based_gen::last_room_open(after)
                &&& before.map.border_closed() ==> after.map.border_closed()
                &&& !(before.map.width < MIN_MAP_SIDE || before.map.height < MIN_MAP_SIDE)
                &&& dug(
                    before.map.tiles@,
                    after.map.tiles@,
                    before.map.width as int,
                    before.map.height as int,
                )
                &&& after.spawn_list == before.spawn_list
                &&& after.start == before.start
                &&& after.rooms is Some
                &&& after.rooms->0@.len() >= 1
                &&& rooms_tried(
                    before.map.width as int,
                    before.map.height as int,
                    before.map.tiles@,
                    after.map.tiles@,
                    after.rooms->0@,
                    MAX_ROOMS as int,
                )
                &&& rooms_apart(after.rooms->0@)
                &&& rooms_carved(after.map.tiles@, before.map.width as int, after.rooms->0@)
                &&& rooms_joined(after.map.tiles@, before.map.width as int, after.rooms->0@)
            },
        }
    }

    fn build_map(&mut self, rng: &mut RandomNumberGenerator, build_data: &mut BuildData) -> (result:
        Result<(), BuildError>)
        ensures
            result is Err <==> old(build_data).map.width < MIN_MAP_SIDE
                || old(build_data).map.height < MIN_MAP_SIDE,
    {
        if build_data.map.width < MIN_MAP_SIDE || build_data.map.height < MIN_MAP_SIDE {
            return Err(BuildError::MapTooSmall);
        }
        self.rooms_and_corridors(rng, build_data);
        proof {
            let rooms = build_data.rooms->0@;
            assert(room_placed(
                rooms[rooms.len() - 1],
                build_data.map.width as int,
                build_data.map.height as int,
            ));
            crate::room_based_gen::lemma_carved_room_open(build_data);
        }
        Ok(())
    }
}

} // verus!
