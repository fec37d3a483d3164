use crate::build_data::{BuildData, BuildError};
use crate::chain::InitialMapBuilder;
use crate::common::{corridor_floor, draw_corridor, lemma_dug_keeps_links, rooms_linked};
use crate::rect::Rect;
use crate::tile_map::{
    col_of, dug, lemma_cell_unique, lemma_dug_keeps_border, lemma_dug_twice,
    lemma_overlaid_dug, overlaid, row_of, TileMap, TileType, MAX_DIMENSION,
};
use rltk::RandomNumberGenerator;
use vstd::prelude::*;

verus! {

/// A partition is split further only while half of it is larger than this.
pub const MIN_ROOM_SIZE: i32 = 8;

/// Whether `inner` lies within `outer` and its corners are in order.
pub open spec fn within(inner: Rect, outer: Rect) -> bool {
    &&& outer.x1 <= inner.x1 <= inner.x2 <= outer.x2
    &&& outer.y1 <= inner.y1 <= inner.y2 <= outer.y2
}

/// The cells that the stage carves for a partition: from its first corner
/// up to, but not including, its second.
pub open spec fn in_partition(room: Rect, x: int, y: int) -> bool {
    room.x1 <= x < room.x2 && room.y1 <= y < room.y2
}

/// Whether the two partitions lie side by side or one above the other,
/// so that they share no cell.
pub open spec fn parted(a: Rect, b: Rect) -> bool {
    a.x2 <= b.x1 || b.x2 <= a.x1 || a.y2 <= b.y1 || b.y2 <= a.y1
}

/// Whether no two of the partitions from the `from`-th on share a cell.
pub open spec fn all_parted(rects: Seq<Rect>, from: int) -> bool {
    forall|i: int, j: int|
        from <= i < j < rects.len() && 0 <= i ==> parted(#[trigger] rects[i], #[trigger] rects[j])
}

/// The two parts of `rect`: side by side with a column between them on a
/// roll of one or two, one above the other with a row between them on a
/// roll above.
pub open spec fn spec_split(rect: Rect, roll: int) -> (Rect, Rect) {
    let half_width = (rect.x2 - rect.x1) / 2;
    let half_height = (rect.y2 - rect.y1) / 2;
    if roll <= 2 {
        (
            Rect { x1: rect.x1, y1: rect.y1, x2: (rect.x1 + half_width - 1) as i32, y2: rect.y2 },
            Rect {
                x1: (rect.x1 + half_width) as i32,
                y1: rect.y1,
                x2: (rect.x1 + 2 * half_width) as i32,
                y2: rect.y2,
            },
        )
    } else {
        (
            Rect { x1: rect.x1, y1: rect.y1, x2: rect.x2, y2: (rect.y1 + half_height - 1) as i32 },
            Rect {
                x1: rect.x1,
                y1: (rect.y1 + half_height) as i32,
                x2: rect.x2,
                y2: (rect.y1 + 2 * half_height) as i32,
            },
        )
    }
}

/// Whether the parts of `rect` that `roll` gives are split further: half
/// of what was split is larger than `MIN_ROOM_SIZE`.
pub open spec fn splits_on(rect: Rect, roll: int) -> bool {
    if roll <= 2 {
        (rect.x2 - rect.x1) / 2 > MIN_ROOM_SIZE
    } else {
        (rect.y2 - rect.y1) / 2 > MIN_ROOM_SIZE
    }
}

/// Whether `roll` is a roll of a four-sided die and `cut` a place at
/// which a list of `count` partitions can be cut in two.
pub open spec fn cut_at(roll: int, cut: int, count: int) -> bool {
    1 <= roll <= 4 && 0 <= cut <= count
}

/// Whether `leaves` are the partitions that splits make of `rect`, in
/// their order: for some roll of a four-sided die the two parts of
/// `rect`, each split in turn where `splits_on` says so.
pub open spec fn is_split(rect: Rect, leaves: Seq<Rect>) -> bool
    decreases (rect.x2 - rect.x1) + (rect.y2 - rect.y1),
{
    exists|roll: int, cut: int|
        #[trigger] cut_at(roll, cut, leaves.len() as int) && {
            let parts = spec_split(rect, roll);
            let left = leaves.subrange(0, cut);
            let right = leaves.subrange(cut, leaves.len() as int);
            if splits_on(rect, roll) && rect_ok(rect) {
                is_split(parts.0, left) && is_split(parts.1, right)
            } else {
                left == seq![parts.0] && right == seq![parts.1]
            }
        }
}

/// Whether the corners of `rect` are in order and not negative, and small
/// enough for a map.
pub open spec fn rect_ok(rect: Rect) -> bool {
    &&& 0 <= rect.x1 <= rect.x2 <= MAX_DIMENSION
    &&& 0 <= rect.y1 <= rect.y2 <= MAX_DIMENSION
}

/// Splits `rect` in two as the roll of a four-sided die says.
pub fn split_rect(rect: Rect, roll: i32) -> (parts: (Rect, Rect))
    requires
        rect_ok(rect),
    ensures
        parts == spec_split(rect, roll as int),
{
    let half_width = rect.width() / 2;
    let half_height = rect.height() / 2;
    if roll <= 2 {
        (
            Rect::new(rect.x1, rect.y1, half_width - 1, rect.height()),
            Rect::new(rect.x1 + half_width, rect.y1, half_width, rect.height()),
        )
    } else {
        (
            Rect::new(rect.x1, rect.y1, rect.width(), half_height - 1),
            Rect::new(rect.x1, rect.y1 + half_height, rect.width(), half_height),
        )
    }
}

/// Divides the interior of the map into partitions, each a room, and joins
/// each room to the next by a corridor.
pub struct BspInteriorBuilder {
    pub rects: Vec<Rect>,
}

impl BspInteriorBuilder {
    pub fn new(new_depth: i32) -> (stage: Box<BspInteriorBuilder>)
        ensures
            stage.rects@.len() == 0,
    {
        Box::new(BspInteriorBuilder { rects: Vec::new() })
    }

    /// Replaces the last partition of the list by the two parts of `rect`,
    /// and each part in turn by its own parts while half of what was split
    /// is larger than `MIN_ROOM_SIZE`.
    pub fn add_subrects(&mut self, rect: Rect, rng: &mut RandomNumberGenerator)
        requires
            rect_ok(rect),
            rect.x2 - rect.x1 >= 2,
            rect.y2 - rect.y1 >= 2,
        ensures
            final(self).rects@.len() >= 2 + if old(self).rects@.len() > 0 {
                old(self).rects@.len() - 1
            } else {
                0int
            },
            forall|i: int|
                0 <= i < old(self).rects@.len() - 1
                    ==> final(self).rects@[i] == old(self).rects@[i],
            forall|i: int|
                old(self).rects@.len() - 1 <= i < final(self).rects@.len() && 0 <= i ==> within(
                    #[trigger] final(self).rects@[i],
                    rect,
                ),
            all_parted(final(self).rects@, old(self).rects@.len() - 1),
            is_split(
                rect,
                final(self).rects@.subrange(
                    if old(self).rects@.len() > 0 {
                        old(self).rects@.len() - 1
                    } else {
                        0int
                    },
                    final(self).rects@.len() as int,
                ),
            ),
            final(self).rects@.last().x1 < final(self).rects@.last().x2,
            final(self).rects@.last().y1 < final(self).rects@.last().y2,
        decreases (rect.x2 - rect.x1) + (rect.y2 - rect.y1),
    {
        if self.rects.len() > 0 {
            self.rects.remove(self.rects.len() - 1);
        }
        let ghost base = self.rects@;
        let half_width = rect.width() / 2;
        let half_height = rect.height() / 2;
        let split = rng.roll_dice(1, 4);
        let (first, second) = split_rect(rect, split);
        let recurse = if split <= 2 {
            half_width > MIN_ROOM_SIZE
        } else {
            half_height > MIN_ROOM_SIZE
        };
        self.rects.push(first);
        if recurse {
            self.add_subrects(first, rng);
        }
        let ghost middle = self.rects@;
        self.rects.push(second);
        if recurse {
            self.add_subrects(second, rng);
        }
        proof {
            let from = base.len() as int;
            let leaves = self.rects@.subrange(from, self.rects@.len() as int);
            let cut = middle.len() - from;
            let left = leaves.subrange(0, cut);
            let right = leaves.subrange(cut, leaves.len() as int);
            assert(left =~= middle.subrange(from, middle.len() as int));
            assert(right =~= self.rects@.subrange(middle.len() as int, self.rects@.len() as int));
            if !recurse {
                assert(left =~= seq![first]);
                assert(right =~= seq![second]);
            }
            assert(recurse == (splits_on(rect, split as int) && rect_ok(rect)));
            assert(cut_at(split as int, cut, leaves.len() as int));
            assert(is_split(rect, leaves));
            assert(parted(first, second));
            assert forall|i: int, j: int|
                base.len() <= i < j < self.rects@.len() implies parted(
                #[trigger] self.rects@[i],
                #[trigger] self.rects@[j],
            ) by {
                if j < middle.len() {
                    assert(self.rects@[i] == middle[i] && self.rects@[j] == middle[j]);
                } else if i < middle.len() {
                    assert(self.rects@[i] == middle[i]);
                    assert(within(middle[i], first) || middle[i] == first);
                    assert(within(self.rects@[j], second) || self.rects@[j] == second);
                }
            }
            assert forall|i: int|
                base.len() <= i < self.rects@.len() implies within(
                #[trigger] self.rects@[i],
                rect,
            ) by {
                if i < middle.len() {
                    assert(self.rects@[i] == middle[i]);
                    assert(within(middle[i], first) || middle[i] == first);
                } else {
                    assert(within(self.rects@[i], second) || self.rects@[i] == second);
                }
            }
        }
    }

    /// Tells a cell of `room` that the dice pick, if the room has any.
    pub fn room_point(room: Rect, rng: &mut RandomNumberGenerator) -> (at: Option<(i32, i32)>)
        requires
            rect_ok(room),
        ensures
            at is Some <==> room.x1 < room.x2 && room.y1 < room.y2,
            at matches Some(p) ==> in_partition(room, p.0 as int, p.1 as int),
    {
        if room.x1 < room.x2 && room.y1 < room.y2 {
            let x = room.x1 + (rng.roll_dice(1, room.width()) - 1);
            let y = room.y1 + (rng.roll_dice(1, room.height()) - 1);
            Some((x, y))
        } else {
            None
        }
    }

    /// Carves the cells of `room`.
    pub fn carve(map: &mut TileMap, room: Rect)
        requires
            old(map).wf(),
            rect_ok(room),
            room.x2 <= old(map).width,
            room.y2 <= old(map).height,
        ensures
            final(map).wf(),
            final(map).same_but_tiles(old(map)),
            overlaid(
                old(map).tiles@,
                final(map).tiles@,
                old(map).width as int,
                |x: int, y: int| in_partition(room, x, y) && (x > 0 || y > 0)
                    && !(x == old(map).width - 1 && y == old(map).height - 1),
                TileType::Floor,
            ),
    {
        let ghost w = map.width as int;
        let ghost h = map.height as int;
        let mut y: i32 = room.y1;
        while y < room.y2
            invariant
                map.wf(),
                map.same_but_tiles(old(map)),
                w == map.width,
                h == map.height,
                rect_ok(room),
                room.x2 <= w,
                room.y2 <= h,
                room.y1 <= y <= room.y2,
                overlaid(
                    old(map).tiles@,
                    map.tiles@,
                    w,
                    |cx: int, cy: int|
                        in_partition(room, cx, cy) && cy < y && (cx > 0 || cy > 0) && !(cx == w - 1
                            && cy == h - 1),
                    TileType::Floor,
                ),
            decreases room.y2 - y,
        {
            let mut x: i32 = room.x1;
            while x < room.x2
                invariant
                    map.wf(),
                    map.same_but_tiles(old(map)),
                    w == map.width,
                    h == map.height,
                    rect_ok(room),
                    room.x2 <= w,
                    room.y2 <= h,
                    room.y1 <= y < room.y2,
                    room.x1 <= x <= room.x2,
                    overlaid(
                        old(map).tiles@,
                        map.tiles@,
                        w,
                        |cx: int, cy: int|
                            in_partition(room, cx, cy) && (cy < y || (cy == y && cx < x)) && (cx > 0
                                || cy > 0) && !(cx == w - 1 && cy == h - 1),
                        TileType::Floor,
                    ),
                decreases room.x2 - x,
            {
                proof {
                    lemma_cell_unique(w, h, x as int, y as int);
                    lemma_cell_unique(w, h, 0, 0);
                    lemma_cell_unique(w, h, w - 1, h - 1);
                    assert((h - 1) * w + (w - 1) == w * h - 1) by (nonlinear_arith);
                }
                let idx = map.xy_idx(x, y);
                if idx > 0 && idx < map.tiles.len() - 1 {
                    map.tiles[idx] = TileType::Floor;
                }
                x += 1;
            }
            y += 1;
        }
    }

    /// Splits the interior of the map into partitions, carves each as a
    /// room, and joins each room to the next by a corridor between cells
    /// that the dice pick.
    pub fn build(&mut self, rng: &mut RandomNumberGenerator, build_data: &mut BuildData)
        requires
            old(build_data).wf(),
            old(build_data).map.width >= 4,
            old(build_data).map.height >= 4,
        ensures
            final(build_data).wf(),
            final(build_data).map.same_but_tiles(&old(build_data).map),
            dug(
                old(build_data).map.tiles@,
                final(build_data).map.tiles@,
                old(build_data).map.width as int,
                old(build_data).map.height as int,
            ),
            old(build_data).map.border_closed() ==> final(build_data).map.border_closed(),
            final(build_data).rooms is Some,
            final(build_data).rooms->0@ == final(self).rects@,
            final(build_data).rooms->0@.len() >= 2,
            final(build_data).rooms->0@.last().x1 < final(build_data).rooms->0@.last().x2,
            final(build_data).rooms->0@.last().y1 < final(build_data).rooms->0@.last().y2,
            all_parted(final(build_data).rooms->0@, 0),
            is_split(
                Rect {
                    x1: 1,
                    y1: 1,
                    x2: (old(build_data).map.width - 1) as i32,
                    y2: (old(build_data).map.height - 1) as i32,
                },
                final(build_data).rooms->0@,
            ),
            forall|i: int, j: int, x: int, y: int|
                0 <= i < j < final(build_data).rooms->0@.len() ==> !(#[trigger] in_partition(
                    final(build_data).rooms->0@[i],
                    x,
                    y,
                ) && #[trigger] in_partition(final(build_data).rooms->0@[j], x, y)),
            forall|k: int|
                0 <= k < final(build_data).rooms->0@.len() ==> within(
                    #[trigger] final(build_data).rooms->0@[k],
                    Rect {
                        x1: 1,
                        y1: 1,
                        x2: (old(build_data).map.width - 1) as i32,
                        y2: (old(build_data).map.height - 1) as i32,
                    },
                ),
            forall|k: int, i: int|
                0 <= k < final(build_data).rooms->0@.len()
                    && 0 <= i < final(build_data).map.tiles@.len() && in_partition(
                    #[trigger] final(build_data).rooms->0@[k],
                    col_of(old(build_data).map.width as int, i),
                    row_of(old(build_data).map.width as int, i),
                ) ==> #[trigger] final(build_data).map.tiles@[i] == TileType::Floor,
            rooms_linked(
                final(build_data).map.tiles@,
                old(build_data).map.width as int,
                final(build_data).rooms->0@,
                final(build_data).rooms->0@.len() as int,
            ),
            final(build_data).spawn_list == old(build_data).spawn_list,
            final(build_data).start == old(build_data).start,
            final(build_data).extends_history(old(build_data)),
    {
        let ghost w = build_data.map.width as int;
        let ghost h = build_data.map.height as int;
        let ghost before = build_data.map.tiles@;
        let mut rooms: Vec<Rect> = Vec::new();
        self.rects.clear();
        let whole = Rect::new(1, 1, build_data.map.width - 2, build_data.map.height - 2);
        self.rects.push(whole);
        self.add_subrects(whole, rng);
        proof {
            assert(self.rects@.subrange(0, self.rects@.len() as int) =~= self.rects@);
        }
        let mut n: usize = 0;
        while n < self.rects.len()
            invariant
                build_data.wf(),
                build_data.map.same_but_tiles(&old(build_data).map),
                w == build_data.map.width,
                h == build_data.map.height,
                before == old(build_data).map.tiles@,
                whole == (Rect { x1: 1, y1: 1, x2: (w - 1) as i32, y2: (h - 1) as i32 }),
                self.rects@.len() >= 2,
                is_split(whole, self.rects@),
                self.rects@.last().x1 < self.rects@.last().x2,
                self.rects@.last().y1 < self.rects@.last().y2,
                all_parted(self.rects@, 0),
                forall|i: int| 0 <= i < self.rects@.len()
                    ==> within(#[trigger] self.rects@[i], whole),
                n <= self.rects@.len(),
                rooms@ == self.rects@.subrange(0, n as int),
                dug(before, build_data.map.tiles@, w, h),
                forall|k: int, i: int|
                    0 <= k < n && 0 <= i < build_data.map.tiles@.len() && in_partition(
                        #[trigger] self.rects@[k],
                        col_of(w, i),
                        row_of(w, i),
                    ) ==> #[trigger] build_data.map.tiles@[i] == TileType::Floor,
                build_data.spawn_list == old(build_data).spawn_list,
                build_data.start == old(build_data).start,
                build_data.rooms == old(build_data).rooms,
                build_data.extends_history(old(build_data)),
            decreases self.rects@.len() - n,
        {
            let room = self.rects[n];
            assert(within(room, whole));
            rooms.push(room);
            let ghost tiles_0 = build_data.map.tiles@;
            BspInteriorBuilder::carve(&mut build_data.map, room);
            proof {
                let tiles_1 = build_data.map.tiles@;
                lemma_overlaid_dug(
                    tiles_0,
                    tiles_1,
                    w,
                    h,
                    |x: int, y: int|
                        in_partition(room, x, y) && (x > 0 || y > 0) && !(x == w - 1 && y == h - 1),
                );
                lemma_dug_twice(before, tiles_0, tiles_1, w, h);
                assert(rooms@ =~= self.rects@.subrange(0, n + 1));
                assert forall|k: int, i: int|
                    0 <= k < n + 1 && 0 <= i < tiles_1.len() && in_partition(
                        #[trigger] self.rects@[k],
                        col_of(w, i),
                        row_of(w, i),
                    ) implies #[trigger] tiles_1[i] == TileType::Floor by {
                    assert(within(self.rects@[k], whole));
                    if k < n {
                        assert(tiles_0[i] == TileType::Floor);
                    }
                }
            }
            build_data.take_snapshot();
            n += 1;
        }
        proof {
            assert(rooms@ =~= self.rects@);
        }
        let mut i: usize = 0;
        while i < rooms.len() - 1
            invariant
                rooms@.len() >= 2,
                build_data.wf(),
                build_data.map.same_but_tiles(&old(build_data).map),
                w == build_data.map.width,
                h == build_data.map.height,
                before == old(build_data).map.tiles@,
                whole == (Rect { x1: 1, y1: 1, x2: (w - 1) as i32, y2: (h - 1) as i32 }),
                rooms@ == self.rects@,
                forall|k: int| 0 <= k < rooms@.len() ==> within(#[trigger] rooms@[k], whole),
                i <= rooms@.len(),
                dug(before, build_data.map.tiles@, w, h),
                forall|k: int, c: int|
                    0 <= k < rooms@.len() && 0 <= c < build_data.map.tiles@.len() && in_partition(
                        #[trigger] rooms@[k],
                        col_of(w, c),
                        row_of(w, c),
                    ) ==> #[trigger] build_data.map.tiles@[c] == TileType::Floor,
                rooms_linked(build_data.map.tiles@, w, rooms@, i as int),
                build_data.spawn_list == old(build_data).spawn_list,
                build_data.start == old(build_data).start,
                build_data.rooms == old(build_data).rooms,
                build_data.extends_history(old(build_data)),
            decreases rooms@.len() - i,
        {
            let room = rooms[i];
            let next = rooms[i + 1];
            assert(within(room, whole) && within(next, whole));
            let from = BspInteriorBuilder::room_point(room, rng);
            let to = BspInteriorBuilder::room_point(next, rng);
            if let Some(start) = from {
                if let Some(end) = to {
                    let ghost tiles_0 = build_data.map.tiles@;
                    draw_corridor(&mut build_data.map, start.0, start.1, end.0, end.1);
                    proof {
                        let tiles_1 = build_data.map.tiles@;
                        lemma_overlaid_dug(
                            tiles_0,
                            tiles_1,
                            w,
                            h,
                            |cx: int, cy: int|
                                crate::common::on_corridor(
                                    start.0 as int,
                                    start.1 as int,
                                    end.0 as int,
                                    end.1 as int,
                                    cx,
                                    cy,
                                ),
                        );
                        lemma_dug_twice(before, tiles_0, tiles_1, w, h);
                        assert forall|k: int, c: int|
                            0 <= k < rooms@.len() && 0 <= c < tiles_1.len() && in_partition(
                                #[trigger] rooms@[k],
                                col_of(w, c),
                                row_of(w, c),
                            ) implies #[trigger] tiles_1[c] == TileType::Floor by {
                            assert(tiles_0[c] == TileType::Floor);
                        }
                        lemma_dug_keeps_links(tiles_0, tiles_1, w, h, rooms@, i as int);
                        assert(corridor_floor(
                            tiles_1,
                            w,
                            start.0 as int,
                            start.1 as int,
                            end.0 as int,
                            end.1 as int,
                        ));
                        assert(crate::common::linked(tiles_1, w, rooms@[i as int], rooms@[i + 1]));
                        assert(crate::common::link_at(tiles_1, w, rooms@, i as int));
                    }
                    build_data.take_snapshot();
                }
            }
            proof {
                assert(crate::common::link_at(build_data.map.tiles@, w, rooms@, i as int));
            }
            i += 1;
        }
        build_data.rooms = Some(rooms);
        proof {
            if old(build_data).map.border_closed() {
                lemma_dug_keeps_border(before, build_data.map.tiles@, w, h);
            }
        }
    }
}

impl InitialMapBuilder for BspInteriorBuilder {
    open spec fn initial_outcome(
        &self,
        before: &BuildData,
        after: &BuildData,
        result: Result<(), BuildError>,
    ) -> bool {
        match result {
            Err(error) => error == BuildError::MapTooSmall && (before.map.width < 4
                || before.map.height < 4),
            Ok(_) => {
                &&& crate::room_based_gen::last_room_open(after)
                &&& before.map.border_closed() ==> after.map.border_closed()
                &&& !(before.map.width < 4 || before.map.height < 4)
                &&& dug(
                    before.map.tiles@,
                    after.map.tiles@,
                    before.map.width as int,
                    before.map.height as int,
                )
                &&& after.spawn_list == before.spawn_list
                &&& after.start == before.start
                &&& after.rooms is Some
                &&& after.rooms->0@.len() >= 2
                &&& is_split(
                    Rect {
                        x1: 1,
                        y1: 1,
                        x2: (before.map.width - 1) as i32,
                        y2: (before.map.height - 1) as i32,
                    },
                    after.rooms->0@,
                )
                &&& all_parted(after.rooms->0@, 0)
                &&& rooms_linked(
                    after.map.tiles@,
                    before.map.width as int,
                    after.rooms->0@,
                    after.rooms->0@.len() as int,
                )
            },
        }
    }

    fn build_map(&mut self, rng: &mut RandomNumberGenerator, build_data: &mut BuildData) -> (result:
        Result<(), BuildError>)
        ensures
            result is Err <==> old(build_data).map.width < 4 || old(build_data).map.height < 4,
    {
        if build_data.map.width < 4 || build_data.map.height < 4 {
            return Err(BuildError::MapTooSmall);
        }
        self.build(rng, build_data);
        proof {
            let rooms = build_data.rooms->0@;
            let last = rooms[rooms.len() - 1];
            let w = build_data.map.width as int;
            let h = build_data.map.height as int;
            let c = last.spec_center();
            assert(within(
                last,
                Rect { x1: 1, y1: 1, x2: (w - 1) as i32, y2: (h - 1) as i32 },
            ));
            crate::tile_map::lemma_cell_index(w, h, c.0, c.1);
            let i = crate::tile_map::cell_index(w, c.0, c.1);
            assert(in_partition(last, col_of(w, i), row_of(w, i)));
            assert(build_data.map.tiles@[i] == TileType::Floor);
        }
        Ok(())
    }
}

} // verus!
