use crate::build_data::{BuildData, BuildError};
use crate::chain::{InitialMapBuilder, MetaMapBuilder};
use crate::tile_map::{
    col_of, is_interior, lemma_cell_unique, lemma_index_cell, row_of, TileType,
};
use rltk::RandomNumberGenerator;
use vstd::prelude::*;

verus! {

/// How many rounds of the automaton the stage runs.
pub const ITERATIONS: u32 = 15;

/// One for a wall at `i`, zero for anything else.
pub open spec fn wall_at(tiles: Seq<TileType>, i: int) -> int {
    if tiles[i] == TileType::Wall {
        1
    } else {
        0
    }
}

/// How many of the four cells beside the cell with index `i`, along its
/// row and its column, are walls.
pub open spec fn wall_neighbours(tiles: Seq<TileType>, width: int, i: int) -> int {
    wall_at(tiles, i - 1) + wall_at(tiles, i + 1) + wall_at(tiles, i - width) + wall_at(
        tiles,
        i + width,
    )
}

/// The tiles after one round of the automaton: a cell off the border
/// becomes a wall if none or more than four of the four cells beside it
/// are walls, and floor otherwise; the border stays. No more than four
/// can be walls, so a cell becomes a wall where none is.
pub open spec fn automaton_step(tiles: Seq<TileType>, width: int, height: int) -> Seq<TileType> {
    Seq::new(
        tiles.len(),
        |i: int|
            if is_interior(width, height, col_of(width, i), row_of(width, i)) {
                let n = wall_neighbours(tiles, width, i);
                if n > 4 || n == 0 {
                    TileType::Wall
                } else {
                    TileType::Floor
                }
            } else {
                tiles[i]
            },
    )
}

/// The tiles after `rounds` rounds of the automaton.
pub open spec fn automaton_steps(tiles: Seq<TileType>, width: int, height: int, rounds: nat) -> Seq<
    TileType,
>
    decreases rounds,
{
    if rounds == 0 {
        tiles
    } else {
        automaton_step(automaton_steps(tiles, width, height, (rounds - 1) as nat), width, height)
    }
}

/// Whether `seeded` is `before` with each cell off the border made a wall
/// or floor.
pub open spec fn is_seeded(
    before: Seq<TileType>,
    seeded: Seq<TileType>,
    width: int,
    height: int,
) -> bool {
    &&& seeded.len() == before.len()
    &&& forall|i: int|
        0 <= i < before.len()
            ==> if is_interior(width, height, col_of(width, i), row_of(width, i)) {
            #[trigger] seeded[i] == TileType::Wall || seeded[i] == TileType::Floor
        } else {
            seeded[i] == before[i]
        }
}

/// The automaton leaves the border as it is.
pub proof fn lemma_automaton_keeps_border(
    tiles: Seq<TileType>,
    width: int,
    height: int,
    rounds: nat,
)
    ensures
        automaton_steps(tiles, width, height, rounds).len() == tiles.len(),
        forall|i: int|
            0 <= i < tiles.len() && !is_interior(width, height, col_of(width, i), row_of(width, i))
                ==> #[trigger] automaton_steps(tiles, width, height, rounds)[i] == tiles[i],
    decreases rounds,
{
    if rounds > 0 {
        lemma_automaton_keeps_border(tiles, width, height, (rounds - 1) as nat);
    }
}

/// After a round or more of the automaton on a map at least three cells
/// wide and high, the cell off the border in the first corner is floor
/// where the border cell on its left is a wall: a wall lies beside it.
pub proof fn lemma_automaton_leaves_floor(
    tiles: Seq<TileType>,
    width: int,
    height: int,
    rounds: nat,
)
    requires
        width >= 3,
        height >= 3,
        tiles.len() == width * height,
        rounds >= 1,
        tiles[crate::tile_map::cell_index(width, 0, 1)] == TileType::Wall,
    ensures
        automaton_steps(tiles, width, height, rounds)[crate::tile_map::cell_index(width, 1, 1)]
            == TileType::Floor,
{
    let earlier = automaton_steps(tiles, width, height, (rounds - 1) as nat);
    let edge = crate::tile_map::cell_index(width, 0, 1);
    let corner = crate::tile_map::cell_index(width, 1, 1);
    crate::tile_map::lemma_cell_index(width, height, 0, 1);
    crate::tile_map::lemma_cell_index(width, height, 1, 1);
    lemma_automaton_keeps_border(tiles, width, height, (rounds - 1) as nat);
    assert(earlier[edge] == TileType::Wall);
    assert(edge == corner - 1);
    assert(wall_at(earlier, corner - 1) == 1);
    assert(1 <= wall_neighbours(earlier, width, corner) <= 4);
    assert(is_interior(width, height, col_of(width, corner), row_of(width, corner)));
}

/// Grows caves: scatters walls and floor over the map and lets an
/// automaton smooth them.
pub struct CellularAutomataBuilder {}

impl CellularAutomataBuilder {
    pub fn new() -> (stage: Box<CellularAutomataBuilder>) {
        Box::new(CellularAutomataBuilder {  })
    }

    /// Makes each cell off the border floor on a roll above 55 of a
    /// hundred-sided die and a wall otherwise, then runs the automaton
    /// for `ITERATIONS` rounds.
    pub fn build(&mut self, rng: &mut RandomNumberGenerator, build_data: &mut BuildData)
        requires
            old(build_data).wf(),
        ensures
            final(build_data).wf(),
            final(build_data).map.same_but_tiles(&old(build_data).map),
            exists|seeded: Seq<TileType>|
                is_seeded(
                    old(build_data).map.tiles@,
                    seeded,
                    old(build_data).map.width as int,
                    old(build_data).map.height as int,
                ) && final(build_data).map.tiles@ == #[trigger] automaton_steps(
                    seeded,
                    old(build_data).map.width as int,
                    old(build_data).map.height as int,
                    ITERATIONS as nat,
                ),
            old(build_data).map.border_closed() ==> final(build_data).map.border_closed(),
            forall|i: int|
                0 <= i < final(build_data).map.tiles@.len() ==> if is_interior(
                    old(build_data).map.width as int,
                    old(build_data).map.height as int,
                    col_of(old(build_data).map.width as int, i),
                    row_of(old(build_data).map.width as int, i),
                ) {
                    #[trigger] final(build_data).map.tiles@[i] == TileType::Wall
                        || final(build_data).map.tiles@[i] == TileType::Floor
                } else {
                    final(build_data).map.tiles@[i] == old(build_data).map.tiles@[i]
                },
            final(build_data).spawn_list == old(build_data).spawn_list,
            final(build_data).start == old(build_data).start,
            final(build_data).rooms == old(build_data).rooms,
            final(build_data).extends_history(old(build_data)),
            final(build_data).grew_by(old(build_data), ITERATIONS as int),
            final(build_data).shows_map(),
    {
        let ghost w = build_data.map.width as int;
        let ghost h = build_data.map.height as int;
        let ghost before = build_data.map.tiles@;
        let mut y: i32 = 1;
        while y < build_data.map.height - 1
            invariant
                build_data.wf(),
                build_data.map.same_but_tiles(&old(build_data).map),
                w == build_data.map.width,
                h == build_data.map.height,
                1 <= y,
                build_data.spawn_list == old(build_data).spawn_list,
                build_data.start == old(build_data).start,
                build_data.rooms == old(build_data).rooms,
                build_data.history == old(build_data).history,
                build_data.record_history == old(build_data).record_history,
                build_data.map.tiles@.len() == before.len(),
                forall|i: int|
                    0 <= i < before.len() ==> if is_interior(w, h, col_of(w, i), row_of(w, i))
                        && row_of(w, i) < y {
                        #[trigger] build_data.map.tiles@[i] == TileType::Wall
                            || build_data.map.tiles@[i] == TileType::Floor
                    } else {
                        build_data.map.tiles@[i] == before[i]
                    },
            decreases build_data.map.height - y,
        {
            let mut x: i32 = 1;
            while x < build_data.map.width - 1
                invariant
                    build_data.wf(),
                    build_data.map.same_but_tiles(&old(build_data).map),
                    w == build_data.map.width,
                    h == build_data.map.height,
                    1 <= y < build_data.map.height - 1,
                    1 <= x,
                    build_data.spawn_list == old(build_data).spawn_list,
                    build_data.start == old(build_data).start,
                    build_data.rooms == old(build_data).rooms,
                    build_data.history == old(build_data).history,
                    build_data.record_history == old(build_data).record_history,
                    build_data.map.tiles@.len() == before.len(),
                    forall|i: int|
                        0 <= i < before.len() ==> if is_interior(w, h, col_of(w, i), row_of(w, i))
                            && (row_of(w, i) < y || (row_of(w, i) == y && col_of(w, i) < x)) {
                            #[trigger] build_data.map.tiles@[i] == TileType::Wall
                                || build_data.map.tiles@[i] == TileType::Floor
                        } else {
                            build_data.map.tiles@[i] == before[i]
                        },
                decreases build_data.map.width - x,
            {
                let roll = rng.roll_dice(1, 100);
                proof {
                    lemma_cell_unique(w, h, x as int, y as int);
                }
                let idx = build_data.map.xy_idx(x, y);
                if roll > 55 {
                    build_data.map.tiles[idx] = TileType::Floor;
                } else {
                    build_data.map.tiles[idx] = TileType::Wall;
                }
                x += 1;
            }
            y += 1;
        }
        let ghost seeded = build_data.map.tiles@;
        assert(is_seeded(before, seeded, w, h));
        let mut round: u32 = 0;
        while round < ITERATIONS
            invariant
                build_data.wf(),
                build_data.map.same_but_tiles(&old(build_data).map),
                w == build_data.map.width,
                h == build_data.map.height,
                round <= ITERATIONS,
                build_data.map.tiles@ == automaton_steps(seeded, w, h, round as nat),
                build_data.grew_by(old(build_data), round as int),
                round > 0 ==> build_data.shows_map(),
                build_data.spawn_list == old(build_data).spawn_list,
                build_data.start == old(build_data).start,
                build_data.rooms == old(build_data).rooms,
                build_data.extends_history(old(build_data)),
            decreases ITERATIONS - round,
        {
            self.apply_iteration(build_data);
            round += 1;
        }
        proof {
            lemma_automaton_keeps_border(seeded, w, h, ITERATIONS as nat);
            let last = automaton_steps(seeded, w, h, (ITERATIONS - 1) as nat);
            lemma_automaton_keeps_border(seeded, w, h, (ITERATIONS - 1) as nat);
            assert(build_data.map.tiles@ == automaton_step(last, w, h));
            if old(build_data).map.border_closed() {
                assert forall|i: int|
                    0 <= i < build_data.map.tiles@.len() && crate::tile_map::on_border(
                        w,
                        h,
                        col_of(w, i),
                        row_of(w, i),
                    ) implies #[trigger] build_data.map.tiles@[i] == TileType::Wall by {
                    assert(seeded[i] == before[i]);
                }
            }
        }
    }

    /// Runs one round of the automaton and takes a snapshot.
    pub fn apply_iteration(&mut self, build_data: &mut BuildData)
        requires
            old(build_data).wf(),
        ensures
            final(build_data).wf(),
            final(build_data).map.same_but_tiles(&old(build_data).map),
            final(build_data).map.tiles@ == automaton_step(
                old(build_data).map.tiles@,
                old(build_data).map.width as int,
                old(build_data).map.height as int,
            ),
            final(build_data).spawn_list == old(build_data).spawn_list,
            final(build_data).start == old(build_data).start,
            final(build_data).rooms == old(build_data).rooms,
            final(build_data).extends_history(old(build_data)),
            final(build_data).grew_by(old(build_data), 1),
            final(build_data).shows_map(),
    {
        let ghost w = build_data.map.width as int;
        let ghost h = build_data.map.height as int;
        let ghost before = build_data.map.tiles@;
        let mut newtiles = crate::waveform_collapse::constraints::copy_tiles(&build_data.map.tiles);
        let width = build_data.map.width as usize;
        let mut y: i32 = 1;
        while y < build_data.map.height - 1
            invariant
                *build_data == *old(build_data),
                build_data.wf(),
                w == build_data.map.width,
                h == build_data.map.height,
                width == w,
                before == build_data.map.tiles@,
                newtiles@.len() == before.len(),
                1 <= y,
                forall|i: int|
                    0 <= i < before.len() ==> #[trigger] newtiles@[i] == if row_of(w, i) < y {
                        automaton_step(before, w, h)[i]
                    } else {
                        before[i]
                    },
            decreases build_data.map.height - y,
        {
            let mut x: i32 = 1;
            while x < build_data.map.width - 1
                invariant
                    *build_data == *old(build_data),
                    build_data.wf(),
                    w == build_data.map.width,
                    h == build_data.map.height,
                    width == w,
                    before == build_data.map.tiles@,
                    newtiles@.len() == before.len(),
                    1 <= y < build_data.map.height - 1,
                    1 <= x,
                    forall|i: int|
                        0 <= i < before.len()
                            ==> #[trigger] newtiles@[i] == if row_of(w, i) < y || (
                        row_of(w, i) == y && col_of(w, i) < x && is_interior(
                            w,
                            h,
                            col_of(w, i),
                            row_of(w, i),
                        )) {
                            automaton_step(before, w, h)[i]
                        } else {
                            before[i]
                        },
                decreases build_data.map.width - x,
            {
                proof {
                    lemma_cell_unique(w, h, x as int, y as int);
                    crate::tile_map::lemma_cell_index(w, h, x - 1, y - 1);
                    crate::tile_map::lemma_cell_index(w, h, x + 1, y + 1);
                    assert(w * h <= 0x1000_0000) by (nonlinear_arith)
                        requires
                            1 <= w <= 16384,
                            1 <= h <= 16384,
                    ;
                    assert((y - 1) * w + (x - 1) == y * w + x - w - 1) by (nonlinear_arith);
                    assert((y + 1) * w + (x + 1) == y * w + x + w + 1) by (nonlinear_arith);
                }
                let idx = build_data.map.xy_idx(x, y);
                let mut neighbors: i32 = 0;
                if build_data.map.tiles[idx - 1] == TileType::Wall {
                    neighbors += 1;
                }
                if build_data.map.tiles[idx + 1] == TileType::Wall {
                    neighbors += 1;
                }
                if build_data.map.tiles[idx - width] == TileType::Wall {
                    neighbors += 1;
                }
                if build_data.map.tiles[idx + width] == TileType::Wall {
                    neighbors += 1;
                }
                assert(neighbors == wall_neighbours(before, w, idx as int));
                if neighbors > 4 || neighbors == 0 {
                    newtiles[idx] = TileType::Wall;
                } else {
                    newtiles[idx] = TileType::Floor;
                }
                x += 1;
            }
            proof {
                assert forall|i: int| 0 <= i < before.len() implies #[trigger] newtiles@[i]
                    == if row_of(w, i) < y + 1 {
                    automaton_step(before, w, h)[i]
                } else {
                    before[i]
                } by {
                    lemma_index_cell(w, h, i);
                }
            }
            y += 1;
        }
        proof {
            assert forall|i: int| 0 <= i < before.len() implies newtiles@[i] == automaton_step(
                before,
                w,
                h,
            )[i] by {
                lemma_index_cell(w, h, i);
            }
            assert(newtiles@ =~= automaton_step(before, w, h));
        }
        build_data.map.tiles = newtiles;
        build_data.take_snapshot();
    }
}

impl InitialMapBuilder for CellularAutomataBuilder {
    open spec fn initial_outcome(
        &self,
        before: &BuildData,
        after: &BuildData,
        result: Result<(), BuildError>,
    ) -> bool {
        &&& result is Ok
        &&& after.map.same_but_tiles(&before.map)
        &&& exists|seeded: Seq<TileType>|
            is_seeded(
                before.map.tiles@,
                seeded,
                before.map.width as int,
                before.map.height as int,
            ) && after.map.tiles@ == #[trigger] automaton_steps(
                seeded,
                before.map.width as int,
                before.map.height as int,
                ITERATIONS as nat,
            )
        &&& before.map.border_closed() ==> after.map.border_closed()
        &&& after.spawn_list == before.spawn_list
        &&& after.start == before.start
        &&& after.rooms == before.rooms
    }

    fn build_map(&mut self, rng: &mut RandomNumberGenerator, build_data: &mut BuildData) -> (result:
        Result<(), BuildError>) {
        self.build(rng, build_data);
        Ok(())
    }
}

impl MetaMapBuilder for CellularAutomataBuilder {
    open spec fn meta_outcome(
        &self,
        before: &BuildData,
        after: &BuildData,
        result: Result<(), BuildError>,
    ) -> bool {
        &&& result is Ok
        &&& after.map.same_but_tiles(&before.map)
        &&& after.map.tiles@ == automaton_step(
            before.map.tiles@,
            before.map.width as int,
            before.map.height as int,
        )
        &&& after.spawn_list == before.spawn_list
        &&& after.start == before.start
        &&& after.rooms == before.rooms
    }

    fn build_map(&mut self, rng: &mut RandomNumberGenerator, build_data: &mut BuildData) -> (result:
        Result<(), BuildError>) {
        self.apply_iteration(build_data);
        Ok(())
    }
}

} // verus!
