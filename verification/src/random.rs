use rltk::{LineAlg, Point, RandomNumberGenerator};
use vstd::prelude::*;

verus! {

/// `rltk::RandomNumberGenerator`, the dice of every stage: a value that is
/// carried through and of whose inside nothing is known here.
#[verifier::external_type_specification]
#[verifier::external_body]
pub struct ExRandomNumberGenerator(RandomNumberGenerator);

/// `RandomNumberGenerator::roll_dice` sums `n` draws, each uniform in
/// `1..=die_type`; it panics on an empty die and on a sum past `i32::MAX`.
pub assume_specification[ RandomNumberGenerator::roll_dice ](
    rng: &mut RandomNumberGenerator,
    n: i32,
    die_type: i32,
) -> (r: i32)
    requires
        0 <= n,
        1 <= die_type < i32::MAX,
        n * die_type <= i32::MAX,
    ensures
        n <= r <= n * die_type,
;

/// The points that `rltk::line2d` plots with the algorithm of Bresenham
/// from `(x1, y1)` to `(x2, y2)`.
pub uninterp spec fn line_points(x1: int, y1: int, x2: int, y2: int) -> Seq<(i32, i32)>;

/// `rltk::line2d` with `LineAlg::Bresenham` plots the line from the first
/// point to the second; between coordinates this small its arithmetic does
/// not overflow.
#[verifier::external_body]
pub(crate) fn bresenham_line(x1: i32, y1: i32, x2: i32, y2: i32) -> (points: Vec<(i32, i32)>)
    requires
        -0x1000_0000 <= x1 <= 0x1000_0000,
        -0x1000_0000 <= y1 <= 0x1000_0000,
        -0x1000_0000 <= x2 <= 0x1000_0000,
        -0x1000_0000 <= y2 <= 0x1000_0000,
    ensures
        points@ == line_points(x1 as int, y1 as int, x2 as int, y2 as int),
{
    let line = rltk::line2d(LineAlg::Bresenham, Point::new(x1, y1), Point::new(x2, y2));
    line.iter().map(|p| (p.x, p.y)).collect()
}

/// `RandomNumberGenerator::new` makes a generator from a seed that the
/// system supplies; nothing is known of what it will give.
#[verifier::external_body]
pub(crate) fn fresh_rng() -> (rng: RandomNumberGenerator) {
    RandomNumberGenerator::new()
}

/// `RandomNumberGenerator::range` draws uniformly from `min` up to, and
/// not including, `max`; it panics on an empty range.
#[verifier::external_body]
pub(crate) fn random_range(rng: &mut RandomNumberGenerator, min: i32, max: i32) -> (r: i32)
    requires
        min < max,
    ensures
        min <= r < max,
{
    rng.range(min, max)
}

} // verus!
