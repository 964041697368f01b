//! Small tasks for trying a fleet out.
use vstd::prelude::*;

verus! {

/// How many rounds [`crunch`] makes.
pub const CRUNCH_ROUNDS: u32 = 200_000_000;

/// Twice the input.
pub fn double(x: u32) -> (r: u32)
    requires
        2 * x <= u32::MAX,
    ensures
        r == 2 * x,
{
    x * 2
}

/// The accumulator after `n` rounds starting from `x`: each multiplies it by 31 and
/// adds the number of the round, modulo 2^32.
pub open spec fn crunched(x: u32, n: int) -> int
    decreases n,
{
    if n <= 0 {
        x as int
    } else {
        (crunched(x, n - 1) * 31 + (n - 1)) % 0x1_0000_0000
    }
}

/// A task heavy enough that a slow host visibly drains fewer of them.
pub fn crunch(x: u32) -> (r: u32)
    ensures
        r == crunched(x, CRUNCH_ROUNDS as int),
{
    let mut acc: u32 = x;
    let mut i: u32 = 0;
    while i < CRUNCH_ROUNDS
        invariant
            i <= CRUNCH_ROUNDS,
            acc == crunched(x, i as int),
        decreases CRUNCH_ROUNDS - i,
    {
        let wide: u64 = (acc as u64 * 31 + i as u64) % 0x1_0000_0000;
        acc = wide as u32;
        i += 1;
    }
    acc
}

/// Each round multiplies by 31 and adds the number of the round, keeping 32 bits.
pub proof fn law_one_more_round(x: u32, n: int)
    requires
        n >= 0,
    ensures
        crunched(x, 0) == x,
        crunched(x, n + 1) == (31 * crunched(x, n) + n) % 4_294_967_296,
        CRUNCH_ROUNDS == 200_000_000,
{
}

} // verus!
