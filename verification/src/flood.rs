use crate::tile_map::{cell_count, cell_index, lemma_cell_index, TileMap};
use vstd::prelude::*;

verus! {

/// The label of a cell that the flood has not reached.
pub const UNREACHED: u32 = 0xffff_ffff;

/// The cost of a step along a row or a column, the unit being a hundredth
/// of a step.
pub const STRAIGHT_COST: u32 = 100;

/// The cost of a diagonal step.
pub const DIAGONAL_COST: u32 = 145;

/// The largest depth limit a flood can be asked for.
pub const MAX_FLOOD_DEPTH: u32 = 0x7fff_ffff;

/// The depth limit the post-processing stages use: a thousand steps.
pub const DEFAULT_FLOOD_DEPTH: u32 = 100_000;

/// The cost of the step by `(dx, dy)`.
pub open spec fn step_cost(dx: int, dy: int) -> int {
    if dx != 0 && dy != 0 {
        DIAGONAL_COST as int
    } else {
        STRAIGHT_COST as int
    }
}

/// Whether the flood may step onto `(x, y)`: the cell lies off the first
/// row and the first column, inside the grid, and is not blocked.
pub open spec fn can_enter(width: int, height: int, blocked: Seq<bool>, x: int, y: int) -> bool {
    &&& 1 <= x <= width - 1
    &&& 1 <= y <= height - 1
    &&& !blocked[cell_index(width, x, y)]
}

/// The label that `(x, y)` gets by one step from its neighbour at offset
/// `(dx, dy)`: the neighbour's label plus the cost of the step, if the
/// neighbour is on the grid and reached and the sum stays below
/// `max_depth`.
pub open spec fn arrive_from(
    width: int,
    height: int,
    labels: Seq<u32>,
    max_depth: u32,
    x: int,
    y: int,
    dx: int,
    dy: int,
) -> u32 {
    let nx = x + dx;
    let ny = y + dy;
    if 0 <= nx < width && 0 <= ny < height {
        let from = labels[cell_index(width, nx, ny)];
        if from != UNREACHED && from + step_cost(dx, dy) < max_depth {
            (from + step_cost(dx, dy)) as u32
        } else {
            UNREACHED
        }
    } else {
        UNREACHED
    }
}

pub open spec fn least(a: u32, b: u32) -> u32 {
    if a <= b {
        a
    } else {
        b
    }
}

/// The best label that `(x, y)` gets from any of its eight neighbours.
pub open spec fn best_arrival(
    width: int,
    height: int,
    labels: Seq<u32>,
    max_depth: u32,
    x: int,
    y: int,
) -> u32 {
    let w = arrive_from(width, height, labels, max_depth, x, y, -1, 0);
    let e = arrive_from(width, height, labels, max_depth, x, y, 1, 0);
    let n = arrive_from(width, height, labels, max_depth, x, y, 0, -1);
    let s = arrive_from(width, height, labels, max_depth, x, y, 0, 1);
    let nw = arrive_from(width, height, labels, max_depth, x, y, -1, -1);
    let ne = arrive_from(width, height, labels, max_depth, x, y, 1, -1);
    let sw = arrive_from(width, height, labels, max_depth, x, y, -1, 1);
    let se = arrive_from(width, height, labels, max_depth, x, y, 1, 1);
    least(least(least(w, e), least(n, s)), least(least(nw, ne), least(sw, se)))
}

/// The label of `(x, y)` after one more round: the smaller of its label
/// and its best arrival, where the cell can be entered; its label as it
/// was, where it can not.
pub open spec fn relaxed(
    width: int,
    height: int,
    blocked: Seq<bool>,
    labels: Seq<u32>,
    max_depth: u32,
    x: int,
    y: int,
) -> u32 {
    let here = labels[cell_index(width, x, y)];
    if can_enter(width, height, blocked, x, y) {
        least(here, best_arrival(width, height, labels, max_depth, x, y))
    } else {
        here
    }
}

/// One round of the flood over all cells at once.
pub open spec fn flood_round(
    width: int,
    height: int,
    blocked: Seq<bool>,
    labels: Seq<u32>,
    max_depth: u32,
) -> Seq<u32> {
    Seq::new(
        labels.len(),
        |i: int| relaxed(width, height, blocked, labels, max_depth, i % width, i / width),
    )
}

/// The labels before the first round: zero on the starts, unreached
/// elsewhere.
pub open spec fn flood_seed(count: nat, starts: Seq<usize>) -> Seq<u32> {
    Seq::new(
        count,
        |i: int|
            if exists|j: int| 0 <= j < starts.len() && starts[j] == i {
                0u32
            } else {
                UNREACHED
            },
    )
}

/// The labels after `rounds` rounds: the least cost of a walk of at most
/// `rounds` steps from a start, over cells that can be entered, below
/// `max_depth`.
pub open spec fn flood_labels(
    width: int,
    height: int,
    blocked: Seq<bool>,
    starts: Seq<usize>,
    max_depth: u32,
    rounds: nat,
) -> Seq<u32>
    decreases rounds,
{
    if rounds == 0 {
        flood_seed(cell_count(width, height) as nat, starts)
    } else {
        flood_round(
            width,
            height,
            blocked,
            flood_labels(width, height, blocked, starts, max_depth, (rounds - 1) as nat),
            max_depth,
        )
    }
}

/// The number of rounds after which no walk below `max_depth` is left to
/// find, a step costing at least `STRAIGHT_COST`.
pub open spec fn flood_rounds(max_depth: u32) -> nat {
    (max_depth / STRAIGHT_COST + 1) as nat
}

/// The flood distance of every cell from the nearest start: `UNREACHED`
/// where no walk below `max_depth` leads to it.
pub open spec fn flood_distances(
    width: int,
    height: int,
    blocked: Seq<bool>,
    starts: Seq<usize>,
    max_depth: u32,
) -> Seq<u32> {
    flood_labels(width, height, blocked, starts, max_depth, flood_rounds(max_depth))
}

/// Every round keeps the number of labels.
pub proof fn lemma_flood_len(
    width: int,
    height: int,
    blocked: Seq<bool>,
    starts: Seq<usize>,
    max_depth: u32,
    rounds: nat,
)
    requires
        0 < width,
        0 < height,
    ensures
        flood_labels(width, height, blocked, starts, max_depth, rounds).len() == cell_count(
            width,
            height,
        ),
    decreases rounds,
{
    assert(0 < width * height) by (nonlinear_arith)
        requires
            0 < width,
            0 < height,
    ;
    if rounds > 0 {
        lemma_flood_len(width, height, blocked, starts, max_depth, (rounds - 1) as nat);
    }
}

/// A round never raises a label.
pub proof fn lemma_flood_round_lowers(
    width: int,
    height: int,
    blocked: Seq<bool>,
    starts: Seq<usize>,
    max_depth: u32,
    rounds: nat,
    i: int,
)
    requires
        0 < width,
        0 < height,
        0 <= i < cell_count(width, height),
    ensures
        flood_labels(width, height, blocked, starts, max_depth, rounds + 1)[i] <= flood_labels(
            width,
            height,
            blocked,
            starts,
            max_depth,
            rounds,
        )[i],
{
    lemma_flood_len(width, height, blocked, starts, max_depth, rounds);
    crate::tile_map::lemma_index_cell(width, height, i);
}

/// Later rounds have labels at most those of earlier rounds.
pub proof fn lemma_flood_antitone(
    width: int,
    height: int,
    blocked: Seq<bool>,
    starts: Seq<usize>,
    max_depth: u32,
    early: nat,
    late: nat,
    i: int,
)
    requires
        0 < width,
        0 < height,
        0 <= i < cell_count(width, height),
        early <= late,
    ensures
        flood_labels(width, height, blocked, starts, max_depth, late)[i] <= flood_labels(
            width,
            height,
            blocked,
            starts,
            max_depth,
            early,
        )[i],
    decreases late - early,
{
    if early < late {
        lemma_flood_antitone(
            width,
            height,
            blocked,
            starts,
            max_depth,
            early,
            (late - 1) as nat,
            i,
        );
        lemma_flood_round_lowers(
            width,
            height,
            blocked,
            starts,
            max_depth,
            (late - 1) as nat,
            i,
        );
    }
}

/// Every start has the flood distance zero.
pub proof fn lemma_start_is_reached(
    width: int,
    height: int,
    blocked: Seq<bool>,
    starts: Seq<usize>,
    max_depth: u32,
    j: int,
)
    requires
        0 < width,
        0 < height,
        0 <= j < starts.len(),
        starts[j] < cell_count(width, height),
    ensures
        flood_distances(width, height, blocked, starts, max_depth)[starts[j] as int] == 0,
{
    lemma_flood_antitone(
        width,
        height,
        blocked,
        starts,
        max_depth,
        0,
        flood_rounds(max_depth),
        starts[j] as int,
    );
}

/// Once a round changes nothing, no later round does.
pub proof fn lemma_flood_stable(
    width: int,
    height: int,
    blocked: Seq<bool>,
    starts: Seq<usize>,
    max_depth: u32,
    fixed: nat,
    later: nat,
)
    requires
        fixed <= later,
        flood_labels(width, height, blocked, starts, max_depth, fixed + 1) == flood_labels(
            width,
            height,
            blocked,
            starts,
            max_depth,
            fixed,
        ),
    ensures
        flood_labels(width, height, blocked, starts, max_depth, later) == flood_labels(
            width,
            height,
            blocked,
            starts,
            max_depth,
            fixed,
        ),
    decreases later - fixed,
{
    if fixed < later {
        lemma_flood_stable(width, height, blocked, starts, max_depth, fixed, (later - 1) as nat);
    }
}

fn arrival(
    map: &TileMap,
    labels: &Vec<u32>,
    max_depth: u32,
    x: i32,
    y: i32,
    dx: i32,
    dy: i32,
) -> (label: u32)
    requires
        map.wf(),
        labels@.len() == map.tiles@.len(),
        max_depth <= MAX_FLOOD_DEPTH,
        0 <= x < map.width,
        0 <= y < map.height,
        -1 <= dx <= 1,
        -1 <= dy <= 1,
    ensures
        label == arrive_from(
            map.width as int,
            map.height as int,
            labels@,
            max_depth,
            x as int,
            y as int,
            dx as int,
            dy as int,
        ),
{
    let nx: i32 = x + dx;
    let ny: i32 = y + dy;
    if 0 <= nx && nx < map.width && 0 <= ny && ny < map.height {
        let from: u32 = labels[map.xy_idx(nx, ny)];
        let cost: u32 = if dx != 0 && dy != 0 {
            DIAGONAL_COST
        } else {
            STRAIGHT_COST
        };
        if from != UNREACHED && from < max_depth && from + cost < max_depth {
            from + cost
        } else {
            UNREACHED
        }
    } else {
        UNREACHED
    }
}

fn smaller(a: u32, b: u32) -> (m: u32)
    ensures
        m == least(a, b),
{
    if a <= b {
        a
    } else {
        b
    }
}

fn relax(map: &TileMap, labels: &Vec<u32>, max_depth: u32, x: i32, y: i32) -> (label: u32)
    requires
        map.wf(),
        labels@.len() == map.tiles@.len(),
        max_depth <= MAX_FLOOD_DEPTH,
        0 <= x < map.width,
        0 <= y < map.height,
    ensures
        label == relaxed(
            map.width as int,
            map.height as int,
            map.blocked@,
            labels@,
            max_depth,
            x as int,
            y as int,
        ),
{
    let here: u32 = labels[map.xy_idx(x, y)];
    if map.is_exit_valid(x, y) {
        let w = arrival(map, labels, max_depth, x, y, -1, 0);
        let e = arrival(map, labels, max_depth, x, y, 1, 0);
        let n = arrival(map, labels, max_depth, x, y, 0, -1);
        let s = arrival(map, labels, max_depth, x, y, 0, 1);
        let nw = arrival(map, labels, max_depth, x, y, -1, -1);
        let ne = arrival(map, labels, max_depth, x, y, 1, -1);
        let sw = arrival(map, labels, max_depth, x, y, -1, 1);
        let se = arrival(map, labels, max_depth, x, y, 1, 1);
        let best = smaller(
            smaller(smaller(w, e), smaller(n, s)),
            smaller(smaller(nw, ne), smaller(sw, se)),
        );
        smaller(here, best)
    } else {
        here
    }
}

/// One round over the whole grid; `changed` tells whether any label fell.
fn round(map: &TileMap, labels: &Vec<u32>, max_depth: u32) -> (out: (Vec<u32>, bool))
    requires
        map.wf(),
        labels@.len() == map.tiles@.len(),
        max_depth <= MAX_FLOOD_DEPTH,
    ensures
        out.0@ == flood_round(
            map.width as int,
            map.height as int,
            map.blocked@,
            labels@,
            max_depth,
        ),
        out.1 == (out.0@ != labels@),
{
    let mut next: Vec<u32> = Vec::new();
    let mut changed = false;
    let mut y: i32 = 0;
    while y < map.height
        invariant
            map.wf(),
            labels@.len() == map.tiles@.len(),
            max_depth <= MAX_FLOOD_DEPTH,
            0 <= y <= map.height,
            next@.len() == y * map.width,
            forall|i: int|
                0 <= i < next@.len() ==> next@[i] == relaxed(
                    map.width as int,
                    map.height as int,
                    map.blocked@,
                    labels@,
                    max_depth,
                    i % (map.width as int),
                    i / (map.width as int),
                ),
            next@.len() <= labels@.len(),
            changed == (exists|i: int| 0 <= i < next@.len() && next@[i] != labels@[i]),
        decreases map.height - y,
    {
        let mut x: i32 = 0;
        while x < map.width
            invariant
                map.wf(),
                labels@.len() == map.tiles@.len(),
                max_depth <= MAX_FLOOD_DEPTH,
                0 <= y < map.height,
                0 <= x <= map.width,
                next@.len() == y * map.width + x,
                forall|i: int|
                    0 <= i < next@.len() ==> next@[i] == relaxed(
                        map.width as int,
                        map.height as int,
                        map.blocked@,
                        labels@,
                        max_depth,
                        i % (map.width as int),
                        i / (map.width as int),
                    ),
                next@.len() <= labels@.len(),
                changed == (exists|i: int| 0 <= i < next@.len() && next@[i] != labels@[i]),
            decreases map.width - x,
        {
            proof {
                lemma_cell_index(map.width as int, map.height as int, x as int, y as int);
            }
            let idx = map.xy_idx(x, y);
            let label = relax(map, labels, max_depth, x, y);
            let ghost before = next@;
            if label != labels[idx] {
                changed = true;
            }
            next.push(label);
            proof {
                if exists|i: int| 0 <= i < before.len() && before[i] != labels@[i] {
                    let i = choose|i: int| 0 <= i < before.len() && before[i] != labels@[i];
                    assert(next@[i] != labels@[i]);
                }
                if label != labels@[idx as int] {
                    assert(next@[idx as int] != labels@[idx as int]);
                }
            }
            x += 1;
        }
        proof {
            assert(y * map.width + map.width == (y + 1) * map.width) by (nonlinear_arith);
        }
        y += 1;
    }
    proof {
        assert(map.height * map.width == map.width * map.height) by (nonlinear_arith);
        if !changed {
            assert(next@ =~= labels@);
        }
        assert(next@ =~= flood_round(
            map.width as int,
            map.height as int,
            map.blocked@,
            labels@,
            max_depth,
        ));
    }
    (next, changed)
}

/// The labels before the first round.
fn seed(count: usize, starts: &Vec<usize>) -> (labels: Vec<u32>)
    ensures
        labels@ == flood_seed(count as nat, starts@),
{
    let mut labels: Vec<u32> = vec![UNREACHED; count];
    let mut j: usize = 0;
    while j < starts.len()
        invariant
            0 <= j <= starts@.len(),
            labels@.len() == count,
            forall|i: int|
                0 <= i < count ==> labels@[i] == if exists|k: int|
                    0 <= k < j && starts@[k] == i {
                    0u32
                } else {
                    UNREACHED
                },
        decreases starts@.len() - j,
    {
        let s = starts[j];
        let ghost before = labels@;
        if s < count {
            labels[s] = 0;
        }
        proof {
            assert forall|i: int| 0 <= i < count implies labels@[i] == if exists|k: int|
                0 <= k < j + 1 && starts@[k] == i {
                0u32
            } else {
                UNREACHED
            } by {
                if exists|k: int| 0 <= k < j && starts@[k] == i {
                    let k = choose|k: int| 0 <= k < j && starts@[k] == i;
                    assert(0 <= k < j + 1 && starts@[k] == i);
                } else if i == s {
                    assert(0 <= j < j + 1 && starts@[j as int] == i);
                } else {
                    if exists|k: int| 0 <= k < j + 1 && starts@[k] == i {
                        let k = choose|k: int| 0 <= k < j + 1 && starts@[k] == i;
                        assert(k == j);
                    }
                }
            }
        }
        j += 1;
    }
    proof {
        assert(labels@ =~= flood_seed(count as nat, starts@));
    }
    labels
}

/// Computes the flood distance of every cell from the nearest of `starts`,
/// stepping in eight directions onto cells that `map.blocked` leaves open.
pub fn flood_fill(map: &TileMap, starts: &Vec<usize>, max_depth: u32) -> (labels: Vec<u32>)
    requires
        map.wf(),
        max_depth <= MAX_FLOOD_DEPTH,
    ensures
        labels@ == flood_distances(
            map.width as int,
            map.height as int,
            map.blocked@,
            starts@,
            max_depth,
        ),
        labels@.len() == map.tiles@.len(),
{
    let rounds: u32 = max_depth / STRAIGHT_COST + 1;
    let mut labels = seed(map.tiles.len(), starts);
    let mut done: u32 = 0;
    let ghost w = map.width as int;
    let ghost h = map.height as int;
    proof {
        lemma_flood_len(w, h, map.blocked@, starts@, max_depth, 0);
    }
    while done < rounds
        invariant_except_break
            labels@ == flood_labels(w, h, map.blocked@, starts@, max_depth, done as nat),
        invariant
            map.wf(),
            w == map.width,
            h == map.height,
            max_depth <= MAX_FLOOD_DEPTH,
            rounds == flood_rounds(max_depth),
            done <= rounds,
            labels@.len() == map.tiles@.len(),
        ensures
            labels@ == flood_labels(w, h, map.blocked@, starts@, max_depth, rounds as nat),
        decreases rounds - done,
    {
        let (next, changed) = round(map, &labels, max_depth);
        if !changed {
            proof {
                lemma_flood_stable(
                    w,
                    h,
                    map.blocked@,
                    starts@,
                    max_depth,
                    done as nat,
                    rounds as nat,
                );
            }
            break ;
        }
        labels = next;
        done += 1;
    }
    labels
}

} // verus!
