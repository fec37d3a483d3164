use crate::build_data::{BuildData, BuildError};
use crate::chain::MetaMapBuilder;
use crate::position::Position;
use crate::rect::Rect;
use crate::spawner::{room_targets, spawn_room, spawned, spawned_each, spawns_valid};
use crate::tile_map::{cell_index, TileType};
use rltk::RandomNumberGenerator;
use vstd::prelude::*;

verus! {

/// Whether rooms were recorded, and at least one.
pub open spec fn has_rooms(data: &BuildData) -> bool {
    data.rooms is Some && data.rooms->0@.len() > 0
}

/// The centre of the `i`-th room recorded.
pub open spec fn room_center(data: &BuildData, i: int) -> (int, int) {
    data.rooms->0@[i].spec_center()
}

/// Whether the `i`-th room's corners are not negative and its centre lies
/// on the map.
pub open spec fn room_on_map(data: &BuildData, i: int) -> bool {
    let room = data.rooms->0@[i];
    &&& room.x1 + room.x2 >= 0
    &&& room.y1 + room.y2 >= 0
    &&& room_center(data, i).0 < data.map.width
    &&& room_center(data, i).1 < data.map.height
}

/// The floor tiles inside each room but the first, in the order of the
/// rooms.
pub open spec fn room_areas(tiles: Seq<TileType>, width: int, rooms: Seq<Rect>) -> Seq<Seq<usize>> {
    Seq::new(
        (rooms.len() - 1) as nat,
        |k: int| room_targets(tiles, width, rooms[k + 1], tiles.len() as int),
    )
}

/// Whether the middle of the last room, if there is a room, lies on the
/// map and on a floor tile.
pub open spec fn last_room_open(data: &BuildData) -> bool {
    has_rooms(data) ==> {
        let last = data.rooms->0@.len() - 1;
        &&& room_on_map(data, last)
        &&& data.map.tiles@[cell_index(
            data.map.width as int,
            room_center(data, last).0,
            room_center(data, last).1,
        )] == TileType::Floor
    }
}

/// The middle of a last room that is carved, at least two cells wide and
/// high and on the map, lies on a floor tile.
pub proof fn lemma_carved_room_open(data: &BuildData)
    requires
        data.wf(),
        has_rooms(data),
        crate::simple_map::rooms_carved(data.map.tiles@, data.map.width as int, data.rooms->0@),
        ({
            let last = data.rooms->0@.last();
            &&& 0 <= last.x1
            &&& 0 <= last.y1
            &&& last.x2 - last.x1 >= 2
            &&& last.y2 - last.y1 >= 2
            &&& last.x2 < data.map.width
            &&& last.y2 < data.map.height
        }),
    ensures
        last_room_open(data),
{
    let rooms = data.rooms->0@;
    let last = rooms[rooms.len() - 1];
    let c = last.spec_center();
    let w = data.map.width as int;
    let h = data.map.height as int;
    crate::tile_map::lemma_cell_index(w, h, c.0, c.1);
    let i = cell_index(w, c.0, c.1);
    assert(crate::common::in_room(
        last,
        crate::tile_map::col_of(w, i),
        crate::tile_map::row_of(w, i),
    ));
}

/// Turning a floor tile into the down stairs leaves a closed border
/// closed and spawns that were in order off the walls.
pub proof fn lemma_stairs_keep_rest(
    tiles: Seq<TileType>,
    width: int,
    height: int,
    spawns: Seq<(usize, String)>,
    at: int,
)
    requires
        0 <= at < tiles.len(),
    ensures
        crate::tile_map::closed_border(tiles, width, height) && tiles[at] == TileType::Floor
            ==> crate::tile_map::closed_border(
            tiles.update(at, TileType::DownStairs),
            width,
            height,
        ),
        spawns_valid(tiles, spawns) ==> crate::chain::spawns_off_walls(
            tiles.update(at, TileType::DownStairs),
            spawns,
        ),
{
    let after = tiles.update(at, TileType::DownStairs);
    if crate::tile_map::closed_border(tiles, width, height) && tiles[at] == TileType::Floor {
        assert forall|i: int|
            0 <= i < after.len() && crate::tile_map::on_border(
                width,
                height,
                crate::tile_map::col_of(width, i),
                crate::tile_map::row_of(width, i),
            ) implies #[trigger] after[i] == TileType::Wall by {
            assert(tiles[i] == TileType::Wall);
        }
    }
    if spawns_valid(tiles, spawns) {
        assert forall|i: int| 0 <= i < spawns.len() implies (#[trigger] spawns[i]).0 < after.len()
            && after[spawns[i].0 as int] != TileType::Wall by {
            assert(tiles[spawns[i].0 as int] == TileType::Floor);
        }
    }
}

/// Asks for monsters in every room but the first.
pub struct RoomBasedSpawner {}

impl RoomBasedSpawner {
    pub fn new() -> (stage: Box<RoomBasedSpawner>) {
        Box::new(RoomBasedSpawner {  })
    }

    /// Asks for monsters on floor tiles inside each room but the first, at
    /// most one per tile.
    pub fn build(&mut self, rng: &mut RandomNumberGenerator, build_data: &mut BuildData)
        requires
            old(build_data).wf(),
            old(build_data).rooms is Some,
        ensures
            final(build_data).wf(),
            final(build_data).map == old(build_data).map,
            final(build_data).start == old(build_data).start,
            final(build_data).rooms == old(build_data).rooms,
            final(build_data).history == old(build_data).history,
            final(build_data).record_history == old(build_data).record_history,
            spawned_each(
                old(build_data).map.tiles@,
                old(build_data).map.depth as int,
                room_areas(
                    old(build_data).map.tiles@,
                    old(build_data).map.width as int,
                    old(build_data).rooms->0@,
                ),
                old(build_data).rooms->0@.len() - 1,
                old(build_data).spawn_list@,
                final(build_data).spawn_list@,
            ),
            old(build_data).spawn_list@.len() <= final(build_data).spawn_list@.len(),
            forall|i: int|
                0 <= i < old(build_data).spawn_list@.len() ==> final(build_data).spawn_list@[i]
                    == old(build_data).spawn_list@[i],
            forall|i: int|
                old(build_data).spawn_list@.len() <= i < final(build_data).spawn_list@.len() ==> {
                    let idx = (#[trigger] final(build_data).spawn_list@[i]).0;
                    idx < final(build_data).map.tiles@.len()
                        && final(build_data).map.tiles@[idx as int] == TileType::Floor
                },
            spawns_valid(old(build_data).map.tiles@, old(build_data).spawn_list@) ==> spawns_valid(
                final(build_data).map.tiles@,
                final(build_data).spawn_list@,
            ),
    {
        let mut rooms: Vec<Rect> = Vec::new();
        match &build_data.rooms {
            Some(recorded) => {
                let mut i: usize = 0;
                while i < recorded.len()
                    invariant
                        i <= recorded@.len(),
                        rooms@ == recorded@.subrange(0, i as int),
                    decreases recorded@.len() - i,
                {
                    rooms.push(recorded[i]);
                    i += 1;
                    assert(rooms@ == recorded@.subrange(0, i as int));
                }
                assert(rooms@ == recorded@);
            },
            None => {},
        }
        let ghost tiles = build_data.map.tiles@;
        let ghost areas = room_areas(tiles, build_data.map.width as int, rooms@);
        if rooms.len() == 0 {
            return ;
        }
        let mut n: usize = 1;
        while n < rooms.len()
            invariant
                1 <= n <= rooms@.len(),
                rooms@ == old(build_data).rooms->0@,
                tiles == build_data.map.tiles@,
                areas == room_areas(tiles, build_data.map.width as int, rooms@),
                spawned_each(
                    tiles,
                    build_data.map.depth as int,
                    areas,
                    n - 1,
                    old(build_data).spawn_list@,
                    build_data.spawn_list@,
                ),
                build_data.wf(),
                build_data.map == old(build_data).map,
                build_data.start == old(build_data).start,
                build_data.rooms == old(build_data).rooms,
                build_data.history == old(build_data).history,
                build_data.record_history == old(build_data).record_history,
                old(build_data).spawn_list@.len() <= build_data.spawn_list@.len(),
                forall|i: int|
                    0 <= i < old(build_data).spawn_list@.len()
                        ==> build_data.spawn_list@[i] == old(build_data).spawn_list@[i],
                forall|i: int|
                    old(build_data).spawn_list@.len() <= i < build_data.spawn_list@.len() ==> {
                        let idx = (#[trigger] build_data.spawn_list@[i]).0;
                        idx < build_data.map.tiles@.len() && build_data.map.tiles@[idx as int]
                            == TileType::Floor
                    },
                spawns_valid(old(build_data).map.tiles@, old(build_data).spawn_list@)
                    ==> spawns_valid(build_data.map.tiles@, build_data.spawn_list@),
            decreases rooms@.len() - n,
        {
            let depth = build_data.map.depth;
            let ghost list_then = build_data.spawn_list@;
            spawn_room(&build_data.map, rng, &rooms[n], depth, &mut build_data.spawn_list);
            proof {
                assert(areas[n - 1] == room_targets(
                    tiles,
                    build_data.map.width as int,
                    rooms@[n as int],
                    tiles.len() as int,
                ));
                assert(spawned(
                    tiles,
                    depth as int,
                    areas[n - 1],
                    list_then,
                    build_data.spawn_list@,
                ));
            }
            n += 1;
        }
    }
}

impl MetaMapBuilder for RoomBasedSpawner {
    open spec fn meta_outcome(
        &self,
        before: &BuildData,
        after: &BuildData,
        result: Result<(), BuildError>,
    ) -> bool {
        match result {
            Err(error) => error == BuildError::NoRooms && (before.rooms is None),
            Ok(_) => {
                &&& spawns_valid(before.map.tiles@, before.spawn_list@) ==> spawns_valid(
                    after.map.tiles@,
                    after.spawn_list@,
                )
                &&& !(before.rooms is None)
                &&& after.map == before.map
                &&& after.start == before.start
                &&& after.rooms == before.rooms
                &&& spawned_each(
                    before.map.tiles@,
                    before.map.depth as int,
                    room_areas(before.map.tiles@, before.map.width as int, before.rooms->0@),
                    before.rooms->0@.len() - 1,
                    before.spawn_list@,
                    after.spawn_list@,
                )
            },
        }
    }

    fn build_map(&mut self, rng: &mut RandomNumberGenerator, build_data: &mut BuildData) -> (result:
        Result<(), BuildError>)
        ensures
            result is Err <==> old(build_data).rooms is None,
    {
        if build_data.rooms.is_none() {
            return Err(BuildError::NoRooms);
        }
        self.build(rng, build_data);
        Ok(())
    }
}

/// Puts the starting position in the middle of the first room.
pub struct RoomBasedStartingPosition {}

impl RoomBasedStartingPosition {
    pub fn new() -> (stage: Box<RoomBasedStartingPosition>) {
        Box::new(RoomBasedStartingPosition {  })
    }

    pub fn build(&mut self, rng: &mut RandomNumberGenerator, build_data: &mut BuildData)
        requires
            old(build_data).wf(),
            has_rooms(old(build_data)),
        ensures
            final(build_data).wf(),
            final(build_data).map == old(build_data).map,
            final(build_data).spawn_list == old(build_data).spawn_list,
            final(build_data).rooms == old(build_data).rooms,
            final(build_data).history == old(build_data).history,
            final(build_data).record_history == old(build_data).record_history,
            final(build_data).start is Some,
            (final(build_data).start->0.x as int, final(build_data).start->0.y as int)
                == old(build_data).rooms->0@[0].spec_center(),
    {
        let start = match &build_data.rooms {
            Some(rooms) => rooms[0].center(),
            None => (0, 0),
        };
        build_data.start = Some(Position { x: start.0, y: start.1 });
    }
}

impl MetaMapBuilder for RoomBasedStartingPosition {
    open spec fn meta_outcome(
        &self,
        before: &BuildData,
        after: &BuildData,
        result: Result<(), BuildError>,
    ) -> bool {
        match result {
            Err(error) => error == BuildError::NoRooms && (!has_rooms(before)),
            Ok(_) => {
                &&& !(!has_rooms(before))
                &&& after.map == before.map
                &&& after.spawn_list == before.spawn_list
                &&& after.rooms == before.rooms
                &&& after.start is Some
                &&& (after.start->0.x as int, after.start->0.y as int)
                    == before.rooms->0@[0].spec_center()
            },
        }
    }

    fn build_map(&mut self, rng: &mut RandomNumberGenerator, build_data: &mut BuildData) -> (result:
        Result<(), BuildError>)
        ensures
            result is Err <==> !has_rooms(old(build_data)),
    {
        let usable = match &build_data.rooms {
            Some(rooms) => rooms.len() > 0,
            None => false,
        };
        if !usable {
            return Err(BuildError::NoRooms);
        }
        self.build(rng, build_data);
        Ok(())
    }
}

/// Puts the down stairs in the middle of the last room.
pub struct RoomBasedStairs {}

impl RoomBasedStairs {
    pub fn new() -> (stage: Box<RoomBasedStairs>) {
        Box::new(RoomBasedStairs {  })
    }

    /// Tells the middle of the last room, if there is a room and its
    /// middle lies on the map.
    pub fn stairs_position(build_data: &BuildData) -> (at: Option<(i32, i32)>)
        requires
            build_data.wf(),
        ensures
            at is Some <==> has_rooms(build_data) && room_on_map(
                build_data,
                build_data.rooms->0@.len() - 1,
            ),
            at matches Some(p) ==> p.0 == room_center(build_data, build_data.rooms->0@.len() - 1).0
                && p.1 == room_center(build_data, build_data.rooms->0@.len() - 1).1,
    {
        match &build_data.rooms {
            Some(rooms) => {
                if rooms.len() == 0 {
                    return None;
                }
                let room = rooms[rooms.len() - 1];
                if room.x1 as i64 + (room.x2 as i64) < 0 || room.y1 as i64 + (room.y2 as i64)
                    < 0 {
                    return None;
                }
                let stairs = room.center();
                if stairs.0 < build_data.map.width && stairs.1 < build_data.map.height {
                    Some(stairs)
                } else {
                    None
                }
            },
            None => None,
        }
    }

    pub fn build(&mut self, rng: &mut RandomNumberGenerator, build_data: &mut BuildData)
        requires
            old(build_data).wf(),
            has_rooms(old(build_data)),
            room_on_map(old(build_data), old(build_data).rooms->0@.len() - 1),
        ensures
            final(build_data).wf(),
            final(build_data).map.same_but_tiles(&old(build_data).map),
            final(build_data).map.tiles@ == old(build_data).map.tiles@.update(
                cell_index(
                    old(build_data).map.width as int,
                    room_center(old(build_data), old(build_data).rooms->0@.len() - 1).0,
                    room_center(old(build_data), old(build_data).rooms->0@.len() - 1).1,
                ),
                TileType::DownStairs,
            ),
            final(build_data).spawn_list == old(build_data).spawn_list,
            final(build_data).start == old(build_data).start,
            final(build_data).rooms == old(build_data).rooms,
            final(build_data).extends_history(old(build_data)),
            final(build_data).grew_by(old(build_data), 1),
            final(build_data).shows_map(),
    {
        let stairs = RoomBasedStairs::stairs_position(build_data).unwrap();
        let idx = build_data.map.xy_idx(stairs.0, stairs.1);
        build_data.map.tiles[idx] = TileType::DownStairs;
        build_data.take_snapshot();
    }
}

impl MetaMapBuilder for RoomBasedStairs {
    open spec fn meta_outcome(
        &self,
        before: &BuildData,
        after: &BuildData,
        result: Result<(), BuildError>,
    ) -> bool {
        match result {
            Err(error) => error == BuildError::NoRooms && (!(has_rooms(before) && room_on_map(
                before,
                before.rooms->0@.len() - 1,
            ))),
            Ok(_) => {
                &&& before.map.border_closed() && last_room_open(before)
                    ==> after.map.border_closed()
                &&& spawns_valid(before.map.tiles@, before.spawn_list@)
                    ==> crate::chain::spawns_off_walls(after.map.tiles@, after.spawn_list@)
                &&& !(!(has_rooms(before) && room_on_map(before, before.rooms->0@.len() - 1)))
                &&& after.map.tiles@ == before.map.tiles@.update(
                    cell_index(
                        before.map.width as int,
                        room_center(before, before.rooms->0@.len() - 1).0,
                        room_center(before, before.rooms->0@.len() - 1).1,
                    ),
                    TileType::DownStairs,
                )
                &&& after.spawn_list == before.spawn_list
                &&& after.start == before.start
                &&& after.rooms == before.rooms
            },
        }
    }

    fn build_map(&mut self, rng: &mut RandomNumberGenerator, build_data: &mut BuildData) -> (result:
        Result<(), BuildError>)
        ensures
            result is Err <==> !(has_rooms(old(build_data)) && room_on_map(
                old(build_data),
                old(build_data).rooms->0@.len() - 1,
            )),
    {
        if RoomBasedStairs::stairs_position(build_data).is_none() {
            return Err(BuildError::NoRooms);
        }
        self.build(rng, build_data);
        proof {
            let last = old(build_data).rooms->0@.len() - 1;
            let w = old(build_data).map.width as int;
            let h = old(build_data).map.height as int;
            let c = room_center(old(build_data), last);
            crate::tile_map::lemma_cell_index(w, h, c.0, c.1);
            lemma_stairs_keep_rest(
                old(build_data).map.tiles@,
                w,
                h,
                old(build_data).spawn_list@,
                cell_index(w, c.0, c.1),
            );
        }
        Ok(())
    }
}

} // verus!
