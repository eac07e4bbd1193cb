//! How many threads a pool gets.

use vstd::prelude::*;

verus! {

/// `n`, but at least `low` and at most `high`.
pub open spec fn clamped(n: int, low: int, high: int) -> int {
    if n < low {
        low
    } else if n > high {
        high
    } else {
        n
    }
}

/// The number of threads for a machine with so many cores: four for each, at least 8 and at
/// most 128. A machine that does not tell counts as one with 8 cores.
pub fn auto_threads(cores: Option<usize>) -> (n: usize)
    requires
        cores is Some ==> cores->0 * 4 <= usize::MAX,
    ensures
        n == clamped(
            4 * (match cores {
                Some(c) => c as int,
                None => 8,
            }),
            8,
            128,
        ),
{
    let cores: usize = match cores {
        Some(c) => c,
        None => 8,
    };
    let n: usize = cores * 4;
    if n < 8 {
        8
    } else if n > 128 {
        128
    } else {
        n
    }
}

/// The number of threads of a pool: the one that is asked for, and for 0 the automatic one.
pub fn pool_threads(num_threads: usize, cores: Option<usize>) -> (n: usize)
    requires
        cores is Some ==> cores->0 * 4 <= usize::MAX,
    ensures
        num_threads > 0 ==> n == num_threads,
        num_threads == 0 ==> n == clamped(
            4 * (match cores {
                Some(c) => c as int,
                None => 8,
            }),
            8,
            128,
        ),
        n > 0,
{
    if num_threads == 0 {
        auto_threads(cores)
    } else {
        num_threads
    }
}

} // verus!
