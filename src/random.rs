use vstd::prelude::*;

verus! {

/// Largest magnitude of a range bound accepted by `random_range`.
pub const MAX_RANGE_BOUND: i64 = 0x100_0000_0000;

/// Relies on rand::random: a value drawn from the thread-local generator.
/// Nothing is known of it beyond its type.
pub assume_specification<T>[ rand::random::<T> ]() -> (r: T)
    where
        rand::distributions::Standard: rand::distributions::Distribution<T>,
;

/// Lower end of the closed interval spanned by `a` and `b`.
pub open spec fn range_lo(a: int, b: int) -> int {
    if a <= b { a } else { b }
}

/// Upper end of the closed interval spanned by `a` and `b`.
pub open spec fn range_hi(a: int, b: int) -> int {
    if a <= b { b } else { a }
}

/// The value that a raw draw `draw` selects between `min` and `max`: the
/// offset `draw mod (|max - min| + 1)` taken from `min` toward `max`.
pub open spec fn pick_spec(min: int, max: int, draw: int) -> int {
    let span = range_hi(min, max) - range_lo(min, max);
    if min <= max { min + draw % (span + 1) } else { min - draw % (span + 1) }
}

/// Maps a raw draw onto the closed interval between `min` and `max`.
pub fn pick_between(min: i64, max: i64, draw: u64) -> (r: i64)
    requires
        -MAX_RANGE_BOUND <= min <= MAX_RANGE_BOUND,
        -MAX_RANGE_BOUND <= max <= MAX_RANGE_BOUND,
    ensures
        r == pick_spec(min as int, max as int, draw as int),
        range_lo(min as int, max as int) <= r <= range_hi(min as int, max as int),
{
    if min <= max {
        let span: u64 = (max - min) as u64;
        let off: u64 = draw % (span + 1);
        min + off as i64
    } else {
        let span: u64 = (min - max) as u64;
        let off: u64 = draw % (span + 1);
        min - off as i64
    }
}

/// A value drawn at random from the closed interval between `min` and `max`
/// (in either order).
pub fn random_range(min: i64, max: i64) -> (r: i64)
    requires
        -MAX_RANGE_BOUND <= min <= MAX_RANGE_BOUND,
        -MAX_RANGE_BOUND <= max <= MAX_RANGE_BOUND,
    ensures
        range_lo(min as int, max as int) <= r <= range_hi(min as int, max as int),
{
    let draw: u64 = rand::random::<u64>();
    pick_between(min, max, draw)
}

} // verus!
