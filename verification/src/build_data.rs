use crate::position::Position;
use crate::rect::Rect;
use crate::tile_map::TileMap;
use vstd::prelude::*;

verus! {

/// Why a stage refused to run: the chain was assembled in a way that the
/// stage cannot work with.
#[derive(PartialEq, Eq, Clone, Copy, Debug, Structural)]
pub enum BuildError {
    /// The grid is smaller than the stage needs.
    MapTooSmall,
    /// No earlier stage recorded rooms, or it recorded none that can be used.
    NoRooms,
    /// No earlier stage chose a starting position on the grid.
    NoStartingPosition,
    /// The grid holds no floor tile.
    NoFloor,
    /// The stage gave up after its budget of attempts.
    Unsolvable,
    /// A template is larger than any map can be.
    BadTemplate,
    /// The stage is asked for more floor than a map has tiles.
    BadSettings,
    /// No floor tile can be reached from the starting position.
    NoExit,
}

/// The record that every stage of a chain works on in turn.
pub struct BuildData {
    pub spawn_list: Vec<(usize, String)>,
    pub map: TileMap,
    pub start: Option<Position>,
    pub rooms: Option<Vec<Rect>>,
    pub history: Vec<TileMap>,
    /// Whether `take_snapshot` records anything.
    pub record_history: bool,
}

impl BuildData {
    pub open spec fn wf(&self) -> bool {
        self.map.wf()
    }

    /// Whether the history of `self` is that of `old` with snapshots added
    /// at its end, under the same setting.
    pub open spec fn extends_history(&self, old: &BuildData) -> bool {
        &&& self.record_history == old.record_history
        &&& old.history@.len() <= self.history@.len()
        &&& forall|i: int| 0 <= i < old.history@.len() ==> self.history@[i] == old.history@[i]
    }

    /// Whether the history of `self` has `count` snapshots more than that
    /// of `old` where it is being recorded, and as many where it is not.
    pub open spec fn grew_by(&self, old: &BuildData, count: int) -> bool {
        self.history@.len() == old.history@.len() + if old.record_history {
            count
        } else {
            0
        }
    }

    /// Whether the last snapshot, where the history is being recorded,
    /// shows the tiles of the map as they are.
    pub open spec fn shows_map(&self) -> bool {
        self.record_history ==> self.history@.len() > 0 && self.history@.last().tiles@
            == self.map.tiles@
    }

    /// Whether a starting position is set and lies on the grid.
    pub open spec fn start_on_map(&self) -> bool {
        match self.start {
            Some(p) => 0 <= p.x < self.map.width && 0 <= p.y < self.map.height,
            None => false,
        }
    }

    /// The index of the starting position's cell.
    pub open spec fn start_index(&self) -> int {
        crate::tile_map::cell_index(
            self.map.width as int,
            self.start->0.x as int,
            self.start->0.y as int,
        )
    }

    /// Tells the index of the starting position's cell, if a starting
    /// position is set and lies on the grid.
    pub fn start_idx(&self) -> (idx: Option<usize>)
        requires
            self.wf(),
        ensures
            idx is Some <==> self.start_on_map(),
            idx is Some ==> idx->0 == self.start_index() && idx->0 < self.map.tiles@.len(),
    {
        match self.start {
            Some(p) => {
                if 0 <= p.x && p.x < self.map.width && 0 <= p.y && p.y < self.map.height {
                    Some(self.map.xy_idx(p.x, p.y))
                } else {
                    None
                }
            },
            None => None,
        }
    }

    /// Whether `self` differs from `old` in nothing but a longer history.
    pub open spec fn same_but_history(&self, old: &BuildData) -> bool {
        &&& self.spawn_list == old.spawn_list
        &&& self.map == old.map
        &&& self.start == old.start
        &&& self.rooms == old.rooms
        &&& self.extends_history(old)
    }

    /// A fresh record for a level of the standard size at depth `new_depth`.
    pub fn new(new_depth: i32, record_history: bool) -> (data: BuildData)
        ensures
            data.wf(),
            data.map.width == crate::tile_map::MAPWIDTH,
            data.map.height == crate::tile_map::MAPHEIGHT,
            data.map.depth == new_depth,
            forall|i: int|
                0 <= i < data.map.tiles@.len() ==> data.map.tiles@[i]
                    == crate::tile_map::TileType::Wall,
            data.spawn_list@.len() == 0,
            data.start is None,
            data.rooms is None,
            data.history@.len() == 0,
            data.record_history == record_history,
    {
        BuildData {
            spawn_list: Vec::new(),
            map: TileMap::new(new_depth),
            start: None,
            rooms: None,
            history: Vec::new(),
            record_history,
        }
    }

    /// Appends a copy of `map`, all of it revealed, to the history, if the
    /// history is being recorded.
    pub fn record_snapshot(&mut self, map: &TileMap)
        requires
            map.wf(),
        ensures
            final(self).same_but_history(old(self)),
            final(self).history@.len() == old(self).history@.len() + if old(self).record_history {
                1int
            } else {
                0int
            },
            old(self).record_history ==> {
                let snapshot = final(self).history@.last();
                &&& snapshot.wf()
                &&& snapshot.same_shape(map)
                &&& snapshot.tiles@ == map.tiles@
                &&& forall|i: int|
                    0 <= i < snapshot.revealed_tiles@.len() ==> snapshot.revealed_tiles@[i]
            },
    {
        if self.record_history {
            let snapshot = map.revealed_copy();
            self.history.push(snapshot);
        }
    }

    /// Appends a copy of the map, all of it revealed, to the history, if
    /// the history is being recorded.
    pub fn take_snapshot(&mut self)
        requires
            old(self).wf(),
        ensures
            final(self).same_but_history(old(self)),
            final(self).history@.len() == old(self).history@.len() + if old(self).record_history {
                1int
            } else {
                0int
            },
            old(self).record_history ==> {
                let snapshot = final(self).history@.last();
                &&& snapshot.wf()
                &&& snapshot.same_shape(&old(self).map)
                &&& snapshot.tiles@ == old(self).map.tiles@
                &&& forall|i: int|
                    0 <= i < snapshot.revealed_tiles@.len() ==> snapshot.revealed_tiles@[i]
            },
    {
        if self.record_history {
            let snapshot = self.map.revealed_copy();
            self.history.push(snapshot);
        }
    }
}

} // verus!
