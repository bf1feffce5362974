//! Draws from the process-wide pseudo-random generator.

use vstd::prelude::*;

verus! {

/// The largest bound for which a draw is known to stay below the bound.
pub const DRAW_LIMIT: u32 = 0x10_0000;

/// Calls `macroquad::rand::gen_range` on `0` and `bound`. The generator
/// scales a 32-bit draw into the range in double precision and cuts off the
/// fraction; for bounds up to `DRAW_LIMIT` that arithmetic is exact, so the
/// result is below `bound`. Which number comes back depends on the
/// generator's state, and nothing more is claimed of it.
#[verifier::external_body]
pub(crate) fn random_below(bound: u32) -> (r: u32)
    requires
        0 < bound <= DRAW_LIMIT,
    ensures
        r < bound,
{
    macroquad::rand::gen_range(0u32, bound)
}

/// Calls `macroquad::rand::rand`, which hands out the generator's next
/// 32-bit number. Nothing is claimed of it.
#[verifier::external_body]
pub(crate) fn random_word() -> (r: u32)
{
    macroquad::rand::rand()
}

/// The number that lies `draw` above `low`.
pub fn above(low: i32, draw: u32) -> (r: i32)
    requires
        low + draw <= i32::MAX,
    ensures
        r == low + draw,
{
    (low as i64 + draw as i64) as i32
}

/// Draws a whole number from `low` up to, but not including, `high`: a draw
/// below `high - low`, counted from `low`. Which number it is depends on the
/// generator's state.
pub fn draw_between(low: i32, high: i32) -> (r: i32)
    requires
        low < high,
        high - low <= DRAW_LIMIT,
    ensures
        low <= r < high,
{
    let span: u32 = (high as i64 - low as i64) as u32;
    let d: u32 = random_below(span);
    above(low, d)
}

} // verus!
