use vstd::prelude::*;

verus! {

/// The pseudo-random number generator that every random decision of the
/// library draws from. Its state is opaque here.
#[verifier::external_type_specification]
#[verifier::external_body]
pub struct ExRandomNumberGenerator(rltk::RandomNumberGenerator);

/// Rolls `n` dice of `die_type` sides with
/// `rltk::RandomNumberGenerator::roll_dice` and adds them up. Each die shows
/// a value from 1 to `die_type`, so the total lies between `n` and
/// `n * die_type`; which total comes out is left open.
#[verifier::external_body]
pub(crate) fn roll_dice(rng: &mut rltk::RandomNumberGenerator, n: i32, die_type: i32) -> (total:
    i32)
    requires
        0 <= n,
        1 <= die_type < i32::MAX,
        n * die_type <= i32::MAX,
    ensures
        n <= total <= n * die_type,
{
    rng.roll_dice(n, die_type)
}

/// Draws a number with `rltk::RandomNumberGenerator::range`: at least `min`
/// and less than `max`; which one is left open.
#[verifier::external_body]
pub(crate) fn range(rng: &mut rltk::RandomNumberGenerator, min: i32, max: i32) -> (value: i32)
    requires
        min < max,
    ensures
        min <= value < max,
{
    rng.range(min, max)
}

/// One die of `sides` sides: a number from 1 to `sides`.
pub fn roll_die(rng: &mut rltk::RandomNumberGenerator, sides: i32) -> (value: i32)
    requires
        1 <= sides < i32::MAX,
    ensures
        1 <= value <= sides,
{
    assert(1 * sides == sides) by (nonlinear_arith);
    roll_dice(rng, 1, sides)
}

/// A number from `low` to `high`, both included.
pub fn roll_between(rng: &mut rltk::RandomNumberGenerator, low: i32, high: i32) -> (value: i32)
    requires
        low <= high < i32::MAX,
    ensures
        low <= value <= high,
{
    range(rng, low, high + 1)
}

} // verus!
