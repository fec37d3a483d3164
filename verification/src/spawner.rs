use crate::rect::Rect;
use crate::tile_map::{TileMap, TileType};
use rltk::RandomNumberGenerator;
use vstd::prelude::*;

verus! {

pub const MAX_MONSTERS: i32 = 4;

pub const MAX_ITEMS: i32 = 2;

/// Whether every spawn request is for a floor tile of the map and no two
/// are for the same tile.
pub open spec fn spawns_valid(tiles: Seq<TileType>, spawns: Seq<(usize, String)>) -> bool {
    &&& forall|i: int|
        0 <= i < spawns.len() ==> (#[trigger] spawns[i]).0 < tiles.len()
            && tiles[spawns[i].0 as int]
            == TileType::Floor
    &&& forall|i: int, j: int| 0 <= i < j < spawns.len() ==> spawns[i].0 != spawns[j].0
}

/// Whether a spawn request is for tile `idx`.
pub open spec fn spec_claimed(spawns: Seq<(usize, String)>, idx: usize) -> bool {
    exists|i: int| 0 <= i < spawns.len() && (#[trigger] spawns[i]).0 == idx
}

/// The name of the monster for a roll of a two-sided die.
pub open spec fn spec_monster_name(roll: i32) -> Seq<char> {
    if roll == 1 {
        "Orc"@
    } else {
        "Goblin"@
    }
}

/// How many spawns a region gets at most at `depth` on `roll` of a die of
/// `MAX_MONSTERS + 3` sides.
pub open spec fn spawn_budget(roll: int, depth: int) -> int {
    roll + (depth - 1) - 3
}

pub fn monster_name(roll: i32) -> (name: String)
    ensures
        name@ == spec_monster_name(roll),
{
    if roll == 1 {
        "Orc".to_owned()
    } else {
        "Goblin".to_owned()
    }
}

pub fn is_claimed(spawn_list: &Vec<(usize, String)>, idx: usize) -> (claimed: bool)
    ensures
        claimed == spec_claimed(spawn_list@, idx),
{
    let mut i: usize = 0;
    while i < spawn_list.len()
        invariant
            i <= spawn_list@.len(),
            forall|j: int| 0 <= j < i ==> (#[trigger] spawn_list@[j]).0 != idx,
        decreases spawn_list@.len() - i,
    {
        if spawn_list[i].0 == idx {
            return true;
        }
        i += 1;
    }
    false
}

/// The most tiles that a region offers for spawns: as many as a die can
/// have faces.
pub const MAX_CANDIDATES: usize = 0x7fff_fffe;

/// Whether a spawn can be asked for tile `idx`: it is a floor tile of the
/// map for which nothing has been asked yet.
pub open spec fn fit_for_spawn(
    tiles: Seq<TileType>,
    spawns: Seq<(usize, String)>,
    idx: usize,
) -> bool {
    idx < tiles.len() && tiles[idx as int] == TileType::Floor && !spec_claimed(spawns, idx)
}

/// The tiles among the first `n` of `area` that a region offers for
/// spawns: those fit for a spawn, each once, in the order of the area, and
/// no more than `MAX_CANDIDATES`.
pub open spec fn spec_candidates(
    tiles: Seq<TileType>,
    spawns: Seq<(usize, String)>,
    area: Seq<usize>,
    n: int,
) -> Seq<usize>
    decreases n,
{
    if n <= 0 {
        Seq::empty()
    } else {
        let before = spec_candidates(tiles, spawns, area, n - 1);
        let idx = area[n - 1];
        if fit_for_spawn(tiles, spawns, idx) && !before.contains(idx) && before.len()
            < MAX_CANDIDATES {
            before.push(idx)
        } else {
            before
        }
    }
}

/// How many spawns a region with `candidates` tiles to offer gets at
/// `depth` on `roll` of a die of `MAX_MONSTERS + 3` sides: as many as the
/// budget allows, one per tile at most, none for a budget below one.
pub open spec fn spec_spawn_count(candidates: int, roll: int, depth: int) -> int {
    let budget = spawn_budget(roll, depth);
    if budget <= 0 {
        0
    } else if candidates < budget {
        candidates
    } else {
        budget
    }
}

/// Whether `after` is what the spawns of a region make of `before`: for
/// some roll of the die, as many spawns as the roll gives the region were
/// added, each an orc or a goblin on a tile of its own among those that
/// the region offers.
pub open spec fn spawned(
    tiles: Seq<TileType>,
    depth: int,
    area: Seq<usize>,
    before: Seq<(usize, String)>,
    after: Seq<(usize, String)>,
) -> bool {
    let offered = spec_candidates(tiles, before, area, area.len() as int);
    &&& exists|roll: int|
        1 <= roll <= MAX_MONSTERS + 3 && after.len() == before.len() + #[trigger] spec_spawn_count(
            offered.len() as int,
            roll,
            depth,
        )
    &&& before.len() <= after.len()
    &&& forall|i: int| 0 <= i < before.len() ==> after[i] == before[i]
    &&& forall|i: int|
        before.len() <= i < after.len() ==> offered.contains((#[trigger] after[i]).0) && (
        after[i].1@ == "Orc"@ || after[i].1@ == "Goblin"@)
    &&& forall|i: int, j: int| before.len() <= i < j < after.len() ==> after[i].0 != after[j].0
}

/// Whether `after` is what the spawns of the first `n` of `areas`, one
/// region after the other, make of `before`.
pub open spec fn spawned_each(
    tiles: Seq<TileType>,
    depth: int,
    areas: Seq<Seq<usize>>,
    n: int,
    before: Seq<(usize, String)>,
    after: Seq<(usize, String)>,
) -> bool
    decreases n,
{
    if n <= 0 {
        after == before
    } else {
        exists|mid: Seq<(usize, String)>|
            spawned_each(tiles, depth, areas, n - 1, before, mid) && #[trigger] spawned(
                tiles,
                depth,
                areas[n - 1],
                mid,
                after,
            )
    }
}

/// The tiles that a region offers are fit for a spawn, come from the area,
/// and are all different.
pub proof fn lemma_candidates(
    tiles: Seq<TileType>,
    spawns: Seq<(usize, String)>,
    area: Seq<usize>,
    n: int,
)
    requires
        0 <= n <= area.len(),
    ensures
        spec_candidates(tiles, spawns, area, n).len() <= n,
        spec_candidates(tiles, spawns, area, n).len() <= MAX_CANDIDATES,
        forall|i: int|
            0 <= i < spec_candidates(tiles, spawns, area, n).len() ==> {
                let idx = #[trigger] spec_candidates(tiles, spawns, area, n)[i];
                fit_for_spawn(tiles, spawns, idx) && area.contains(idx)
            },
        forall|i: int, j: int|
            0 <= i < j < spec_candidates(tiles, spawns, area, n).len() ==> spec_candidates(
                tiles,
                spawns,
                area,
                n,
            )[i] != spec_candidates(tiles, spawns, area, n)[j],
    decreases n,
{
    if n > 0 {
        lemma_candidates(tiles, spawns, area, n - 1);
        let before = spec_candidates(tiles, spawns, area, n - 1);
        let now = spec_candidates(tiles, spawns, area, n);
        assert(area[n - 1] == area[n - 1] && area.contains(area[n - 1]));
        assert forall|i: int, j: int| 0 <= i < j < now.len() implies now[i] != now[j] by {
            if j == before.len() {
                assert(before.contains(before[i]));
            }
        }
    }
}

/// Spawns added to spawns in order, on tiles fit for a spawn, leave the
/// spawns in order.
pub proof fn lemma_spawned_valid(
    tiles: Seq<TileType>,
    depth: int,
    area: Seq<usize>,
    before: Seq<(usize, String)>,
    after: Seq<(usize, String)>,
)
    requires
        spawned(tiles, depth, area, before, after),
    ensures
        after.len() <= before.len() + area.len(),
        forall|i: int|
            before.len() <= i < after.len() ==> fit_for_spawn(
                tiles,
                before,
                (#[trigger] after[i]).0,
            )
                && area.contains(after[i].0),
        spawns_valid(tiles, before) ==> spawns_valid(tiles, after),
{
    let offered = spec_candidates(tiles, before, area, area.len() as int);
    lemma_candidates(tiles, before, area, area.len() as int);
    assert forall|i: int| before.len() <= i < after.len() implies fit_for_spawn(
        tiles,
        before,
        (#[trigger] after[i]).0,
    ) && area.contains(after[i].0) by {
        assert(offered.contains(after[i].0));
        let k = choose|k: int| 0 <= k < offered.len() && offered[k] == after[i].0;
        assert(fit_for_spawn(tiles, before, offered[k]));
    }
    if spawns_valid(tiles, before) {
        assert forall|i: int, j: int| 0 <= i < j < after.len() implies after[i].0
            != after[j].0 by {
            if i < before.len() && j >= before.len() {
                assert(fit_for_spawn(tiles, before, after[j].0));
                assert(before[i].0 != after[j].0);
            }
        }
        assert forall|i: int| 0 <= i < after.len() implies (#[trigger] after[i]).0 < tiles.len()
            && tiles[after[i].0 as int] == TileType::Floor by {
            if i < before.len() {
                assert(after[i] == before[i]);
            } else {
                assert(fit_for_spawn(tiles, before, after[i].0));
            }
        }
    }
}

/// Lists the tiles of `area` that the region offers for spawns.
pub fn spawn_candidates(
    map: &TileMap,
    area: &Vec<usize>,
    spawn_list: &Vec<(usize, String)>,
) -> (offered: Vec<usize>)
    ensures
        offered@ == spec_candidates(map.tiles@, spawn_list@, area@, area@.len() as int),
        offered@.len() <= MAX_CANDIDATES,
{
    let mut areas: Vec<usize> = Vec::new();
    let mut k: usize = 0;
    while k < area.len()
        invariant
            k <= area@.len(),
            areas@ == spec_candidates(map.tiles@, spawn_list@, area@, k as int),
            areas@.len() <= MAX_CANDIDATES,
        decreases area@.len() - k,
    {
        let idx = area[k];
        if idx < map.tiles.len() && map.tiles[idx] == TileType::Floor && !is_claimed(
            spawn_list,
            idx,
        ) && !crate::waveform_collapse::solver::holds(&areas, idx) && areas.len()
            < MAX_CANDIDATES {
            areas.push(idx);
        }
        k += 1;
    }
    areas
}

/// Tells how many spawns a region with `candidates` tiles to offer gets
/// at `depth` on `roll`.
pub fn spawn_count(candidates: usize, roll: i32, depth: i32) -> (count: usize)
    requires
        candidates <= MAX_CANDIDATES,
    ensures
        count == spec_spawn_count(candidates as int, roll as int, depth as int),
        count <= candidates,
{
    let budget: i64 = roll as i64 + (depth as i64 - 1) - 3;
    if budget <= 0 {
        0
    } else if (candidates as i64) < budget {
        candidates
    } else {
        budget as usize
    }
}

/// Asks for monsters on tiles of `area`: as many as the dice and the depth
/// give, at most one per tile, and only on floor tiles of the map for
/// which nothing has been asked yet.
pub fn spawn_region(
    map: &TileMap,
    rng: &mut RandomNumberGenerator,
    area: &Vec<usize>,
    map_depth: i32,
    spawn_list: &mut Vec<(usize, String)>,
)
    ensures
        spawned(map.tiles@, map_depth as int, area@, old(spawn_list)@, final(spawn_list)@),
        old(spawn_list)@.len() <= final(spawn_list)@.len() <= old(spawn_list)@.len() + area@.len(),
        forall|i: int|
            0 <= i < old(spawn_list)@.len() ==> final(spawn_list)@[i] == old(spawn_list)@[i],
        forall|i: int|
            old(spawn_list)@.len() <= i < final(spawn_list)@.len() ==> {
                let idx = (#[trigger] final(spawn_list)@[i]).0;
                &&& area@.contains(idx)
                &&& idx < map.tiles@.len()
                &&& map.tiles@[idx as int] == TileType::Floor
                &&& !spec_claimed(old(spawn_list)@, idx)
                &&& final(spawn_list)@[i].1@ == "Orc"@ || final(spawn_list)@[i].1@ == "Goblin"@
            },
        forall|i: int, j: int|
            old(spawn_list)@.len() <= i < j < final(spawn_list)@.len() ==> final(spawn_list)@[i].0
                != final(spawn_list)@[j].0,
        spawns_valid(map.tiles@, old(spawn_list)@) ==> spawns_valid(
            map.tiles@,
            final(spawn_list)@,
        ),
{
    let mut areas = spawn_candidates(map, area, spawn_list);
    let ghost offered = areas@;
    proof {
        lemma_candidates(map.tiles@, spawn_list@, area@, area@.len() as int);
    }
    let rolled = rng.roll_dice(1, MAX_MONSTERS + 3);
    let num_spawns = spawn_count(areas.len(), rolled, map_depth);
    let ghost first = spawn_list@.len();
    let mut done: usize = 0;
    while done < num_spawns
        invariant
            done <= num_spawns,
            first == old(spawn_list)@.len(),
            spawn_list@.len() == first + done,
            areas@.len() + done == offered.len(),
            num_spawns <= offered.len(),
            offered.len() <= MAX_CANDIDATES,
            forall|i: int| 0 <= i < first ==> spawn_list@[i] == old(spawn_list)@[i],
            forall|i: int| 0 <= i < areas@.len() ==> offered.contains(#[trigger] areas@[i]),
            forall|i: int, j: int| 0 <= i < j < areas@.len() ==> areas@[i] != areas@[j],
            forall|i: int|
                first <= i < spawn_list@.len() ==> offered.contains((#[trigger] spawn_list@[i]).0)
                    && (spawn_list@[i].1@ == "Orc"@ || spawn_list@[i].1@ == "Goblin"@),
            forall|i: int, j: int|
                first <= i < j < spawn_list@.len() ==> spawn_list@[i].0 != spawn_list@[j].0,
            forall|i: int, j: int|
                first <= i < spawn_list@.len() && 0 <= j < areas@.len() ==> (
                #[trigger] spawn_list@[i]).0 != #[trigger] areas@[j],
        decreases num_spawns - done,
    {
        let array_index: usize = if areas.len() == 1 {
            0
        } else {
            (rng.roll_dice(1, areas.len() as i32) - 1) as usize
        };
        let map_idx = areas[array_index];
        let name = monster_name(rng.roll_dice(1, 2));
        let ghost areas_then = areas@;
        spawn_list.push((map_idx, name));
        areas.remove(array_index);
        proof {
            assert forall|i: int| 0 <= i < areas@.len() implies offered.contains(
                #[trigger] areas@[i],
            ) && areas@[i] != map_idx by {
                let i0 = if i < array_index {
                    i
                } else {
                    i + 1
                };
                assert(areas@[i] == areas_then[i0]);
            }
            assert forall|i: int, j: int| 0 <= i < j < areas@.len() implies areas@[i]
                != areas@[j] by {
                let i0 = if i < array_index {
                    i
                } else {
                    i + 1
                };
                let j0 = if j < array_index {
                    j
                } else {
                    j + 1
                };
                assert(areas@[i] == areas_then[i0]);
                assert(areas@[j] == areas_then[j0]);
            }
            assert forall|i: int, j: int|
                first <= i < spawn_list@.len() && 0 <= j < areas@.len() implies (
            #[trigger] spawn_list@[i]).0 != #[trigger] areas@[j] by {
                let j0 = if j < array_index {
                    j
                } else {
                    j + 1
                };
                assert(areas@[j] == areas_then[j0]);
            }
        }
        done += 1;
    }
    proof {
        assert(spawn_list@.len() == old(spawn_list)@.len() + spec_spawn_count(
            offered.len() as int,
            rolled as int,
            map_depth as int,
        ));
        assert(spawned(map.tiles@, map_depth as int, area@, old(spawn_list)@, spawn_list@));
        lemma_spawned_valid(map.tiles@, map_depth as int, area@, old(spawn_list)@, spawn_list@);
    }
}

/// Whether the tile with index `idx` lies inside `room`, off its edges.
pub open spec fn inside_room(room: Rect, width: int, idx: int) -> bool {
    &&& room.x1 < crate::tile_map::col_of(width, idx) < room.x2
    &&& room.y1 < crate::tile_map::row_of(width, idx) < room.y2
}

/// The floor tiles inside `room` among the first `n` tiles, in rising
/// order.
pub open spec fn room_targets(tiles: Seq<TileType>, width: int, room: Rect, n: int) -> Seq<usize>
    decreases n,
{
    if n <= 0 {
        Seq::empty()
    } else {
        let before = room_targets(tiles, width, room, n - 1);
        if tiles[n - 1] == TileType::Floor && inside_room(room, width, n - 1) {
            before.push((n - 1) as usize)
        } else {
            before
        }
    }
}

/// The targets in a room are floor tiles inside it.
pub proof fn lemma_room_targets(tiles: Seq<TileType>, width: int, room: Rect, n: int)
    requires
        0 <= n <= tiles.len(),
        tiles.len() <= usize::MAX,
    ensures
        forall|i: int|
            0 <= i < room_targets(tiles, width, room, n).len() ==> {
                let idx = #[trigger] room_targets(tiles, width, room, n)[i];
                idx < n && tiles[idx as int] == TileType::Floor && inside_room(
                    room,
                    width,
                    idx as int,
                )
            },
    decreases n,
{
    if n > 0 {
        lemma_room_targets(tiles, width, room, n - 1);
    }
}

/// Lists the floor tiles inside `room`.
pub fn room_floor(map: &TileMap, room: &Rect) -> (targets: Vec<usize>)
    requires
        map.wf(),
    ensures
        targets@ == room_targets(map.tiles@, map.width as int, *room, map.tiles@.len() as int),
{
    let ghost w = map.width as int;
    let mut targets: Vec<usize> = Vec::new();
    let mut idx: usize = 0;
    while idx < map.tiles.len()
        invariant
            map.wf(),
            w == map.width,
            idx <= map.tiles@.len(),
            targets@ == room_targets(map.tiles@, w, *room, idx as int),
        decreases map.tiles@.len() - idx,
    {
        proof {
            crate::tile_map::lemma_index_cell(w, map.height as int, idx as int);
        }
        let x = (idx % map.width as usize) as i32;
        let y = (idx / map.width as usize) as i32;
        if map.tiles[idx] == TileType::Floor && room.x1 < x && x < room.x2 && room.y1 < y && y
            < room.y2 {
            targets.push(idx);
        }
        idx += 1;
    }
    targets
}

/// Asks for monsters on the floor tiles inside `room`.
pub fn spawn_room(
    map: &TileMap,
    rng: &mut RandomNumberGenerator,
    room: &Rect,
    map_depth: i32,
    spawn_list: &mut Vec<(usize, String)>,
)
    requires
        map.wf(),
    ensures
        spawned(
            map.tiles@,
            map_depth as int,
            room_targets(map.tiles@, map.width as int, *room, map.tiles@.len() as int),
            old(spawn_list)@,
            final(spawn_list)@,
        ),
        old(spawn_list)@.len() <= final(spawn_list)@.len(),
        forall|i: int|
            0 <= i < old(spawn_list)@.len() ==> final(spawn_list)@[i] == old(spawn_list)@[i],
        forall|i: int|
            old(spawn_list)@.len() <= i < final(spawn_list)@.len() ==> {
                let idx = (#[trigger] final(spawn_list)@[i]).0;
                &&& idx < map.tiles@.len()
                &&& map.tiles@[idx as int] == TileType::Floor
                &&& inside_room(*room, map.width as int, idx as int)
            },
        spawns_valid(map.tiles@, old(spawn_list)@) ==> spawns_valid(
            map.tiles@,
            final(spawn_list)@,
        ),
{
    let possible_targets = room_floor(map, room);
    let tile_count: usize = map.tiles.len();
    spawn_region(map, rng, &possible_targets, map_depth, spawn_list);
    proof {
        lemma_room_targets(map.tiles@, map.width as int, *room, tile_count as int);
        assert forall|i: int| old(spawn_list)@.len() <= i < spawn_list@.len() implies inside_room(
            *room,
            map.width as int,
            (#[trigger] spawn_list@[i]).0 as int,
        ) by {
            let idx = spawn_list@[i].0;
            assert(possible_targets@.contains(idx));
            let k = choose|k: int|
                0 <= k < possible_targets@.len() && possible_targets@[k] == idx;
            assert(possible_targets@[k] == idx);
        }
    }
}

} // verus!
