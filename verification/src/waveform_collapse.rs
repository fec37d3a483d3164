pub mod common;
pub mod constraints;
pub mod image_loader;
pub mod solver;

use crate::build_data::{BuildData, BuildError};
use crate::chain::MetaMapBuilder;
use crate::position::Position;
use crate::tile_map::{col_of, row_of, TileMap, TileType};
use crate::waveform_collapse::common::{is_catalog, MapChunk};
use crate::waveform_collapse::constraints::{
    build_patterns, drawn_tile, in_chunk, kept_patterns, lemma_distinct_len, pattern_views,
    patterns_to_constraints, raw_pattern_count, raw_patterns, render_pattern_to_map, Chunk,
};
use crate::waveform_collapse::solver::{lemma_catalog_ok, Solver};
use rltk::RandomNumberGenerator;
use vstd::prelude::*;

verus! {

/// Where the patterns come from.
#[derive(PartialEq, Eq, Clone, Copy, Debug, Structural)]
pub enum WaveformMode {
    TestMap,
    Derived,
}

/// The side of the patterns that the stage cuts the map into.
pub const CHUNK_SIZE: i32 = 7;

/// How many solves the stage starts before it gives up.
pub const MAX_SOLVE_ATTEMPTS: u32 = 1000;

/// The patterns that the stage reads off a map: those of its regions and
/// their mirror images, each once.
pub open spec fn stage_patterns(tiles: Seq<TileType>, width: int,
    height: int) -> Seq<Seq<TileType>> {
    kept_patterns(
        raw_patterns(tiles, width, height, CHUNK_SIZE as int, true),
        raw_pattern_count(width, height, CHUNK_SIZE as int, true),
        true,
    )
}

/// Whether `snapshot` is a record of a grid of `width` by `height`, all of
/// it revealed.
pub open spec fn is_record(snapshot: &TileMap, width: int, height: int) -> bool {
    &&& snapshot.wf()
    &&& snapshot.width == width
    &&& snapshot.height == height
    &&& forall|i: int|
        0 <= i < snapshot.revealed_tiles@.len() ==> snapshot.revealed_tiles@[i]
}

/// Whether all that `after` has recorded beyond `before` are records of
/// grids of `width` by `height`.
pub open spec fn records_added(before: &BuildData, after: &BuildData, width: int,
    height: int) -> bool {
    &&& after.extends_history(before)
    &&& forall|i: int|
        before.history@.len() <= i < after.history@.len() ==> is_record(
            #[trigger] &after.history@[i],
            width,
            height,
        )
}

/// The region of side `size` whose first cell is `(x, y)`.
pub open spec fn chunk_at(size: int, x: int, y: int) -> Chunk {
    Chunk {
        size: size as i32,
        start: Position { x: x as i32, y: y as i32 },
        end: Position { x: (x + size) as i32, y: (y + size) as i32 },
    }
}

/// The tiles of a page after a catalog entry was drawn on `chunk`.
pub open spec fn drawn(page: Seq<TileType>, entry: &MapChunk, chunk: Chunk, width: int) -> Seq<
    TileType,
> {
    Seq::new(
        page.len(),
        |i: int|
            if in_chunk(chunk, col_of(width, i), row_of(width, i)) {
                drawn_tile(entry, chunk, chunk.size as int, col_of(width, i), row_of(width, i))
            } else {
                page[i]
            },
    )
}

/// How far the gallery has come: the tiles of the snapshots taken, those
/// of the page in work, and where the next entry goes.
pub struct Gallery {
    pub shown: Seq<Seq<TileType>>,
    pub page: Seq<TileType>,
    pub x: int,
    pub y: int,
}

/// The gallery after the first `n` entries of the catalog: an entry that
/// fits is drawn and the page shown; the next goes to its right, a gap
/// between them, or at the start of the next row where the row is full;
/// where the page is full it is shown once more and a new one begun.
pub open spec fn gallery(catalog: Seq<MapChunk>, size: int, width: int, height: int,
    n: int) -> Gallery
    decreases n,
{
    if n <= 0 {
        Gallery {
            shown: Seq::empty(),
            page: Seq::new((width * height) as nat, |i: int| TileType::Wall),
            x: 1,
            y: 1,
        }
    } else {
        let so_far = gallery(catalog, size, width, height, n - 1);
        let fits = so_far.x + size <= width && so_far.y + size <= height;
        let page = if fits {
            drawn(so_far.page, &catalog[n - 1], chunk_at(size, so_far.x, so_far.y), width)
        } else {
            so_far.page
        };
        let shown = if fits {
            so_far.shown.push(page)
        } else {
            so_far.shown
        };
        if so_far.x + size + 1 + size <= width {
            Gallery { shown, page, x: so_far.x + size + 1, y: so_far.y }
        } else if so_far.y + size + 1 + size <= height {
            Gallery { shown, page, x: 1, y: so_far.y + size + 1 }
        } else {
            Gallery {
                shown: shown.push(page),
                page: Seq::new((width * height) as nat, |i: int| TileType::Wall),
                x: 1,
                y: 1,
            }
        }
    }
}

/// The tiles of all the snapshots that the gallery of a catalog takes,
/// the page in work being shown at the end.
pub open spec fn gallery_pages(catalog: Seq<MapChunk>, size: int, width: int,
    height: int) -> Seq<Seq<TileType>> {
    let all = gallery(catalog, size, width, height, catalog.len() as int);
    all.shown.push(all.page)
}

/// Whether the first snapshots that `after` has recorded beyond `before`
/// are the gallery of `catalog`.
pub open spec fn gallery_recorded(
    before: &BuildData,
    after: &BuildData,
    catalog: Seq<MapChunk>,
) -> bool {
    let pages = gallery_pages(
        catalog,
        CHUNK_SIZE as int,
        before.map.width as int,
        before.map.height as int,
    );
    before.record_history ==> {
        &&& after.history@.len() >= before.history@.len() + pages.len()
        &&& forall|i: int|
            0 <= i < pages.len() ==> (#[trigger] after.history@[before.history@.len() + i]).tiles@
                == pages[i]
    }
}

/// Whether one of `patterns` has no exit on any side: such a pattern may
/// lie next to any other, so that no solve can run into a region that
/// nothing fits.
pub open spec fn has_exit_free(patterns: Seq<Seq<TileType>>) -> bool {
    exists|q: int|
        0 <= q < patterns.len() && !crate::waveform_collapse::common::pattern_has_exits(
            #[trigger] patterns[q],
            CHUNK_SIZE as int,
        )
}

/// Rebuilds the map out of the patterns found on it, so that neighbouring
/// patterns fit each other.
pub struct WaveformCollapseBuilder {}

impl WaveformCollapseBuilder {
    pub fn new() -> (stage: Box<WaveformCollapseBuilder>) {
        Box::new(WaveformCollapseBuilder {  })
    }

    /// Reads the patterns off the map, derives which may lie side by side,
    /// and solves for a new map, again from an empty one whenever a solve
    /// runs into a region that nothing fits. Tells the number of the solve
    /// that succeeded, or `None` once `MAX_SOLVE_ATTEMPTS` have failed;
    /// the map and the spawn list are then as they were. A solve that was
    /// not the first leaves the spawn list empty.
    pub fn build(&mut self, rng: &mut RandomNumberGenerator, build_data: &mut BuildData) -> (solved:
        Option<u32>)
        requires
            old(build_data).wf(),
        ensures
            final(build_data).wf(),
            final(build_data).map.same_shape(&old(build_data).map),
            final(build_data).extends_history(old(build_data)),
            final(build_data).start == old(build_data).start,
            final(build_data).rooms == old(build_data).rooms,
            records_added(
                old(build_data),
                final(build_data),
                old(build_data).map.width as int,
                old(build_data).map.height as int,
            ),
            old(build_data).map.width / CHUNK_SIZE == 0 || old(build_data).map.height / CHUNK_SIZE
                == 0 ==> solved == Some(1u32),
            has_exit_free(
                stage_patterns(
                    old(build_data).map.tiles@,
                    old(build_data).map.width as int,
                    old(build_data).map.height as int,
                ),
            ) ==> solved == Some(1u32),
            solved is None ==> final(build_data).same_but_history(old(build_data)),
            solved is Some ==> 1 <= solved->0 <= MAX_SOLVE_ATTEMPTS,
            solved is Some && solved->0 == 1
                ==> final(build_data).spawn_list == old(build_data).spawn_list,
            solved is Some && solved->0 > 1 ==> final(build_data).spawn_list@.len() == 0,
            exists|catalog: Seq<MapChunk>|
                is_catalog(
                    catalog,
                    stage_patterns(
                        old(build_data).map.tiles@,
                        old(build_data).map.width as int,
                        old(build_data).map.height as int,
                    ),
                    CHUNK_SIZE as int,
                ) && #[trigger] gallery_recorded(old(build_data), final(build_data), catalog),
            solved is Some ==> exists|chosen: Seq<int>| #[trigger]
                Solver::assembled(
                    final(build_data).map.tiles@,
                    old(build_data).map.width as int,
                    old(build_data).map.height as int,
                    CHUNK_SIZE as int,
                    stage_patterns(
                        old(build_data).map.tiles@,
                        old(build_data).map.width as int,
                        old(build_data).map.height as int,
                    ),
                    chosen,
                ),
    {
        let patterns = build_patterns(&build_data.map, CHUNK_SIZE, true, true);
        let ghost catalog = pattern_views(patterns@);
        let constraints = patterns_to_constraints(patterns, CHUNK_SIZE);
        proof {
            let w = build_data.map.width as int;
            let h = build_data.map.height as int;
            if w / 7 == 0 || h / 7 == 0 {
                assert((w / 7) * (h / 7) * 4 == 0) by (nonlinear_arith)
                    requires
                        w / 7 == 0 || h / 7 == 0,
                ;
                assert(raw_pattern_count(w, h, CHUNK_SIZE as int, true) == 0);
                assert(catalog.len() == 0);
                assert(constraints@.len() == 0);
            }
            let regions = (w / 7) * (h / 7);
            assert(0 <= regions <= 2341 * 2341) by (nonlinear_arith)
                requires
                    regions == (w / 7) * (h / 7),
                    0 <= w / 7 <= 2341,
                    0 <= h / 7 <= 2341,
            ;
            assert(w / 7 > 0 && h / 7 > 0 ==> regions >= 1) by (nonlinear_arith)
                requires
                    regions == (w / 7) * (h / 7),
            ;
            lemma_distinct_len(
                raw_patterns(build_data.map.tiles@, w, h, CHUNK_SIZE as int, true),
                raw_pattern_count(w, h, CHUNK_SIZE as int, true),
            );
            assert(constraints@.len() < 0x7fff_ffff);
            assert(constraints@.len() >= 1 || w / 7 == 0 || h / 7 == 0);
        }
        proof {
            lemma_catalog_ok(constraints@, catalog, CHUNK_SIZE as int);
        }
        let ghost easy = has_exit_free(catalog);
        let ghost free: int = if easy {
            choose|q: int|
                0 <= q < catalog.len() && !crate::waveform_collapse::common::pattern_has_exits(
                    #[trigger] catalog[q],
                    CHUNK_SIZE as int,
                )
        } else {
            0
        };
        proof {
            if easy {
                solver::lemma_exit_free_fits(constraints@, catalog, CHUNK_SIZE as int, free);
            }
        }
        self.render_tile_gallery(&constraints, CHUNK_SIZE, build_data);
        proof {
            let first = old(build_data).history@.len() as int;
            let pages = gallery_pages(
                constraints@,
                CHUNK_SIZE as int,
                old(build_data).map.width as int,
                old(build_data).map.height as int,
            );
            assert forall|i: int| 0 <= i < pages.len() && old(build_data).record_history implies (
            #[trigger] build_data.history@[first + i]).tiles@ == pages[i] by {
                assert(build_data.history@[first + i].tiles@ == pages[first + i - first]);
            }
            assert(gallery_recorded(old(build_data), build_data, constraints@));
        }
        let width = build_data.map.width;
        let height = build_data.map.height;
        let depth = build_data.map.depth;
        let mut attempt: u32 = 0;
        while attempt < MAX_SOLVE_ATTEMPTS
            invariant
                build_data.wf(),
                build_data.same_but_history(old(build_data)),
                width == build_data.map.width,
                height == build_data.map.height,
                depth == build_data.map.depth,
                attempt <= MAX_SOLVE_ATTEMPTS,
                solver::catalog_ok(constraints@, CHUNK_SIZE as int),
                is_catalog(constraints@, catalog, CHUNK_SIZE as int),
                catalog == stage_patterns(
                    old(build_data).map.tiles@,
                    width as int,
                    height as int,
                ),
                constraints@.len() >= 1 || width / CHUNK_SIZE == 0 || height / CHUNK_SIZE == 0,
                width / CHUNK_SIZE == 0 || height / CHUNK_SIZE == 0 ==> attempt == 0
                    && constraints@.len() == 0,
                easy == has_exit_free(catalog),
                easy ==> attempt == 0 && 0 <= free < constraints@.len() && forall|
                    a: int,
                    side: int,
                |
                    0 <= a < constraints@.len() && 0 <= side < 4 ==> (
                    #[trigger] constraints@[a].compatible_with[side])@.contains(free as usize),
                width == old(build_data).map.width,
                height == old(build_data).map.height,
                records_added(old(build_data), build_data, width as int, height as int),
                gallery_recorded(old(build_data), build_data, constraints@),
            decreases MAX_SOLVE_ATTEMPTS - attempt,
        {
            attempt += 1;
            let mut work = TileMap::with_size(width, height, depth);
            let mut solver = Solver::new(&constraints, CHUNK_SIZE, &work);
            proof {
                if width / CHUNK_SIZE == 0 || height / CHUNK_SIZE == 0 {
                    assert(solver.chunks_x * solver.chunks_y == 0) by (nonlinear_arith)
                        requires
                            solver.chunks_x == 0 || solver.chunks_y == 0,
                    ;
                }
            }
            let mut done = constraints.len() == 0;
            while !done
                invariant
                    build_data.wf(),
                    build_data.same_but_history(old(build_data)),
                    work.wf(),
                    work.width == width,
                    work.height == height,
                    work.depth == depth,
                    solver.wf(),
                    solver.conflict_free(),
                    solver.rendered(&work),
                    solver.fits(&work),
                    solver.constraints@ == constraints@,
                    solver.chunk_size == CHUNK_SIZE,
                    solver.chunks_x == width / CHUNK_SIZE,
                    solver.chunks_y == height / CHUNK_SIZE,
                    constraints@.len() >= 1 || done,
                    constraints@.len() == 0 ==> solver.possible,
                    easy ==> solver.possible && 0 <= free < constraints@.len() && forall|
                        a: int,
                        side: int,
                    |
                        0 <= a < constraints@.len() && 0 <= side < 4 ==> (
                        #[trigger] constraints@[a].compatible_with[side])@.contains(
                            free as usize,
                        ),
                    records_added(old(build_data), build_data, width as int, height as int),
                    gallery_recorded(old(build_data), build_data, constraints@),
                    done && solver.possible ==> solver.remaining@.len() == 0,
                    !done ==> solver.possible,
                decreases
                        if done {
                            0
                        } else {
                            solver.remaining@.len() + 1
                        },
            {
                proof {
                    if easy {
                        assert(solver.fits_everywhere(free));
                        solver.lemma_step_finds_one(free);
                    }
                }
                done = solver.iteration(&mut work, rng);
                build_data.record_snapshot(&work);
            }
            if solver.possible {
                proof {
                    solver.lemma_solved(&work, catalog);
                }
                let ghost chosen = solver.chosen();
                let ghost recorded = *build_data;
                build_data.map = work;
                if attempt > 1 {
                    build_data.spawn_list.clear();
                }
                proof {
                    assert(build_data.history == recorded.history);
                    assert(gallery_recorded(old(build_data), &recorded, constraints@));
                    assert(gallery_recorded(old(build_data), build_data, constraints@));
                    assert(Solver::assembled(
                        build_data.map.tiles@,
                        width as int,
                        height as int,
                        CHUNK_SIZE as int,
                        catalog,
                        chosen,
                    ));
                }
                return Some(attempt);
            }
        }
        None
    }

    /// Records a gallery of the catalog in the history: the patterns drawn
    /// side by side on empty maps, a new map whenever one is full.
    fn render_tile_gallery(
        &mut self,
        constraints: &Vec<MapChunk>,
        chunk_size: i32,
        build_data: &mut BuildData,
    )
        requires
            old(build_data).wf(),
            1 <= chunk_size <= crate::tile_map::MAX_DIMENSION,
            solver::catalog_ok(constraints@, chunk_size as int),
            forall|k: int, i: int|
                0 <= k < constraints@.len() && 0 <= i < 4 ==> (
                #[trigger] constraints@[k].exits[i])@.len() == chunk_size,
        ensures
            final(build_data).same_but_history(old(build_data)),
            old(build_data).record_history ==> final(build_data).history@.len()
                > old(build_data).history@.len(),
            !old(build_data).record_history ==> final(build_data).history@.len()
                == old(build_data).history@.len(),
            old(build_data).record_history ==> final(build_data).history@.len()
                == old(build_data).history@.len() + gallery_pages(
                constraints@,
                chunk_size as int,
                old(build_data).map.width as int,
                old(build_data).map.height as int,
            ).len(),
            forall|i: int|
                old(build_data).history@.len() <= i < final(build_data).history@.len()
                    ==> (#[trigger] final(build_data).history@[i]).tiles@ == gallery_pages(
                    constraints@,
                    chunk_size as int,
                    old(build_data).map.width as int,
                    old(build_data).map.height as int,
                )[i - old(build_data).history@.len()],
            forall|i: int|
                old(build_data).history@.len() <= i < final(build_data).history@.len() ==> {
                    let page = #[trigger] &final(build_data).history@[i];
                    is_record(
                        page,
                        old(build_data).map.width as int,
                        old(build_data).map.height as int,
                    ) && page.depth == 0
                },
    {
        let width = build_data.map.width;
        let height = build_data.map.height;
        let mut page = TileMap::with_size(width, height, 0);
        let ghost first = build_data.history@.len();
        let ghost w = width as int;
        let ghost h = height as int;
        let ghost size = chunk_size as int;
        proof {
            assert(page.tiles@ =~= gallery(constraints@, size, w, h, 0).page);
        }
        let mut ctr: usize = 0;
        let mut x: i32 = 1;
        let mut y: i32 = 1;
        while ctr < constraints.len()
            invariant
                first == old(build_data).history@.len(),
                w == width,
                h == height,
                size == chunk_size,
                page.tiles@ == gallery(constraints@, size, w, h, ctr as int).page,
                x == gallery(constraints@, size, w, h, ctr as int).x,
                y == gallery(constraints@, size, w, h, ctr as int).y,
                old(build_data).record_history ==> build_data.history@.len() == first + gallery(
                    constraints@,
                    size,
                    w,
                    h,
                    ctr as int,
                ).shown.len(),
                forall|i: int|
                    first <= i < build_data.history@.len() ==> (
                    #[trigger] build_data.history@[i]).tiles@ == gallery(
                        constraints@,
                        size,
                        w,
                        h,
                        ctr as int,
                    ).shown[i - first],
                build_data.same_but_history(old(build_data)),
                !old(build_data).record_history ==> build_data.history@.len()
                    == old(build_data).history@.len(),
                forall|i: int|
                    old(build_data).history@.len() <= i < build_data.history@.len() ==> {
                        let shown = #[trigger] &build_data.history@[i];
                        is_record(shown, width as int, height as int) && shown.depth == 0
                    },
                page.wf(),
                page.width == width,
                page.height == height,
                page.depth == 0,
                1 <= chunk_size <= crate::tile_map::MAX_DIMENSION,
                solver::catalog_ok(constraints@, chunk_size as int),
                forall|k: int, i: int|
                    0 <= k < constraints@.len() && 0 <= i < 4 ==> (
                    #[trigger] constraints@[k].exits[i])@.len() == chunk_size,
                1 <= x <= crate::tile_map::MAX_DIMENSION,
                1 <= y <= crate::tile_map::MAX_DIMENSION,
                ctr <= constraints@.len(),
            decreases constraints@.len() - ctr,
        {
            let chunk = Chunk::presized(chunk_size, Position { x, y });
            let ghost so_far = gallery(constraints@, size, w, h, ctr as int);
            let ghost page_then = page.tiles@;
            if x + chunk_size <= width && y + chunk_size <= height {
                assert forall|i: int| 0 <= i < 4 implies (
                #[trigger] constraints@[ctr as int].exits[i])@.len() == chunk.size by {}
                render_pattern_to_map(&mut page, &constraints[ctr], chunk);
                proof {
                    assert(chunk == chunk_at(size, x as int, y as int));
                    assert(page.tiles@ =~= drawn(page_then, &constraints@[ctr as int], chunk, w));
                }
                build_data.record_snapshot(&page);
            }
            let ghost history_then = build_data.history@;
            x += chunk_size + 1;
            if x + chunk_size > width {
                x = 1;
                y += chunk_size + 1;
                if y + chunk_size > height {
                    build_data.record_snapshot(&page);
                    page = TileMap::with_size(width, height, 0);
                    x = 1;
                    y = 1;
                }
            }
            ctr += 1;
            proof {
                let now = gallery(constraints@, size, w, h, ctr as int);
                assert(gallery(constraints@, size, w, h, ctr - 1) == so_far);
                assert(page.tiles@ =~= now.page);
                assert forall|i: int| first <= i < build_data.history@.len() implies (
                #[trigger] build_data.history@[i]).tiles@ == now.shown[i - first] by {
                    if i < history_then.len() {
                        assert(build_data.history@[i] == history_then[i]);
                    }
                }
            }
        }
        build_data.record_snapshot(&page);
    }
}

impl MetaMapBuilder for WaveformCollapseBuilder {
    open spec fn meta_outcome(
        &self,
        before: &BuildData,
        after: &BuildData,
        result: Result<(), BuildError>,
    ) -> bool {
        let width = before.map.width as int;
        let height = before.map.height as int;
        &&& records_added(before, after, width, height)
        &&& after.start == before.start
        &&& after.rooms == before.rooms
        &&& width / (CHUNK_SIZE as int) == 0 || height / (CHUNK_SIZE as int) == 0 ==> result is Ok
        &&& has_exit_free(stage_patterns(before.map.tiles@, width, height)) ==> result is Ok
        &&& match result {
            Err(error) => error == BuildError::Unsolvable && after.same_but_history(before),
            Ok(_) => {
                &&& after.spawn_list == before.spawn_list || after.spawn_list@.len() == 0
                &&& exists|chosen: Seq<int>| #[trigger]
                    Solver::assembled(
                        after.map.tiles@,
                        width,
                        height,
                        CHUNK_SIZE as int,
                        stage_patterns(before.map.tiles@, width, height),
                        chosen,
                    )
            },
        }
    }

    fn build_map(&mut self, rng: &mut RandomNumberGenerator, build_data: &mut BuildData) -> (result:
        Result<(), BuildError>) {
        match self.build(rng, build_data) {
            Some(_) => Ok(()),
            None => Err(BuildError::Unsolvable),
        }
    }
}

} // verus!
