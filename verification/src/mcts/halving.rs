//! Sequential halving: how often an action must have been visited to be considered in each
//! simulation.

use vstd::prelude::*;
use vstd::arithmetic::div_mod::lemma_div_denominator;
use vstd::arithmetic::power2::{lemma_pow2_unfold, pow2};
use crate::grid::{has_shape, VisitGrid};

verus! {

/// The least `k` for which `2` to the power `k` is at least `n`.
pub open spec fn ceil_log2(n: int) -> int
    decreases n,
{
    if n <= 1 {
        0
    } else {
        1 + ceil_log2(n - n / 2)
    }
}

/// `ceil_log2` is the logarithm to the base 2, rounded up.
pub proof fn law_ceil_log2(n: int)
    requires
        n >= 1,
    ensures
        ceil_log2(n) >= 0,
        n <= pow2(ceil_log2(n) as nat),
        n >= 2 ==> ceil_log2(n) >= 1 && pow2((ceil_log2(n) - 1) as nat) < n,
    decreases n,
{
    vstd::arithmetic::power2::lemma2_to64();
    if n >= 2 {
        let half = n - n / 2;
        law_ceil_log2(half);
        lemma_pow2_unfold(ceil_log2(n) as nat);
        if half >= 2 {
            lemma_pow2_unfold((ceil_log2(n) - 1) as nat);
        }
    }
}

/// How many rounds a phase lasts that considers `considered` actions.
pub open spec fn rounds(considered: int, log2max: int, simulations: int) -> int {
    let share = simulations / (log2max * considered);
    if share >= 1 {
        share
    } else {
        1
    }
}

/// How many actions the next phase considers.
pub open spec fn halved(considered: int) -> int {
    if considered / 2 >= 2 {
        considered / 2
    } else {
        2
    }
}

/// The visit counts for the `left` remaining simulations. The present phase considers
/// `considered` actions, which all have `visit` visits, for `turns` more rounds: each round
/// visits every considered action once. When the phase ends, half of the actions go on.
pub open spec fn schedule(
    considered: int,
    turns: int,
    visit: int,
    left: int,
    log2max: int,
    simulations: int,
) -> Seq<int>
    decreases
            left,
            (if turns <= 0 {
                1int
            } else {
                0int
            }),
{
    if left <= 0 || considered <= 0 {
        Seq::empty()
    } else if turns <= 0 {
        let next = halved(considered);
        schedule(next, rounds(next, log2max, simulations), visit, left, log2max, simulations)
    } else {
        let width = if considered <= left {
            considered
        } else {
            left
        };
        Seq::new(width as nat, |i: int| visit) + schedule(
            considered,
            turns - 1,
            visit + 1,
            left - width,
            log2max,
            simulations,
        )
    }
}

/// The visit count that an action must have to be considered, for each simulation, when at
/// most `max_considered` actions are considered at first.
pub open spec fn visit_sequence(max_considered: int, simulations: int) -> Seq<int> {
    if max_considered <= 1 {
        Seq::new(simulations as nat, |i: int| i)
    } else {
        let log2max = ceil_log2(max_considered);
        schedule(
            max_considered,
            rounds(max_considered, log2max, simulations),
            0,
            simulations,
            log2max,
            simulations,
        )
    }
}

proof fn lemma_schedule(
    considered: int,
    turns: int,
    visit: int,
    left: int,
    log2max: int,
    simulations: int,
)
    requires
        left >= 0,
        considered >= 1,
    ensures
        schedule(considered, turns, visit, left, log2max, simulations).len() == left,
        left > 0 ==> schedule(considered, turns, visit, left, log2max, simulations)[0] == visit,
        forall|i: int|
            0 < i < left ==> {
                let before = schedule(considered, turns, visit, left, log2max, simulations)[i - 1];
                let here = #[trigger] schedule(
                    considered,
                    turns,
                    visit,
                    left,
                    log2max,
                    simulations,
                )[i];
                before <= here <= before + 1
            },
    decreases
            left,
            (if turns <= 0 {
                1int
            } else {
                0int
            }),
{
    if left > 0 {
        if turns <= 0 {
            let next = halved(considered);
            lemma_schedule(
                next,
                rounds(next, log2max, simulations),
                visit,
                left,
                log2max,
                simulations,
            );
        } else {
            let width = if considered <= left {
                considered
            } else {
                left
            };
            lemma_schedule(considered, turns - 1, visit + 1, left - width, log2max, simulations);
            let all = schedule(considered, turns, visit, left, log2max, simulations);
            let rest = schedule(
                considered,
                turns - 1,
                visit + 1,
                left - width,
                log2max,
                simulations,
            );
            assert(all =~= Seq::new(width as nat, |i: int| visit) + rest);
            assert forall|i: int| 0 < i < left implies {
                let before = all[i - 1];
                let here = #[trigger] all[i];
                before <= here <= before + 1
            } by {
                if i > width {
                    assert(rest[i - width] == all[i]);
                    assert(rest[i - width - 1] == all[i - 1]);
                }
            }
        }
    }
}

/// The sequence has one entry for each simulation, starts at 0, and from one simulation to
/// the next stays or grows by 1: it never decreases.
pub proof fn law_visit_sequence(max_considered: int, simulations: int)
    requires
        simulations >= 0,
    ensures
        visit_sequence(max_considered, simulations).len() == simulations,
        simulations > 0 ==> visit_sequence(max_considered, simulations)[0] == 0,
        forall|i: int|
            0 < i < simulations ==> {
                let before = visit_sequence(max_considered, simulations)[i - 1];
                let here = #[trigger] visit_sequence(max_considered, simulations)[i];
                before <= here <= before + 1
            },
        forall|i: int|
            0 <= i < simulations ==> 0 <= #[trigger] visit_sequence(max_considered, simulations)[i] <= i,
{
    let all = visit_sequence(max_considered, simulations);
    if max_considered > 1 {
        let log2max = ceil_log2(max_considered);
        lemma_schedule(
            max_considered,
            rounds(max_considered, log2max, simulations),
            0,
            simulations,
            log2max,
            simulations,
        );
    }
    assert forall|i: int| 0 <= i < simulations implies 0 <= #[trigger] all[i] <= i by {
        lemma_bounded_by_index(all, i);
    }
}

proof fn lemma_bounded_by_index(all: Seq<int>, i: int)
    requires
        0 <= i < all.len(),
        all[0] == 0,
        forall|k: int|
            0 < k < all.len() ==> {
                let before = all[k - 1];
                let here = #[trigger] all[k];
                before <= here <= before + 1
            },
    ensures
        0 <= all[i] <= i,
    decreases i,
{
    if i > 0 {
        lemma_bounded_by_index(all, i - 1);
        assert(all[i - 1] <= all[i] <= all[i - 1] + 1);
    }
}

/// Counts as mathematical integers.
pub open spec fn as_ints(counts: Seq<usize>) -> Seq<int> {
    counts.map_values(|v: usize| v as int)
}

fn ceil_log2_of(n: usize) -> (k: usize)
    requires
        n >= 1,
    ensures
        k == ceil_log2(n as int),
        n >= 2 ==> k >= 1,
{
    let mut m: usize = n;
    let mut k: usize = 0;
    while m > 1
        invariant
            m >= 1,
            k + ceil_log2(m as int) == ceil_log2(n as int),
            k + m <= n,
            n >= 2 && m == 1 ==> k >= 1,
        decreases m,
    {
        m = m - m / 2;
        k = k + 1;
    }
    k
}

/// The visit counts to be considered, one for each simulation.
pub fn sequential_halving_seq(max_num_considered: usize, num_simulations: usize) -> (visits: Vec<usize>)
    ensures
        as_ints(visits@) == visit_sequence(max_num_considered as int, num_simulations as int),
{
    let mut visits: Vec<usize> = Vec::new();
    let ghost goal = visit_sequence(max_num_considered as int, num_simulations as int);
    if max_num_considered <= 1 {
        for i in 0..num_simulations
            invariant
                visits@.len() == i,
                forall|k: int| 0 <= k < i ==> visits@[k] == k,
        {
            visits.push(i);
        }
        assert(as_ints(visits@) =~= goal);
        return visits;
    }
    let log2max: usize = ceil_log2_of(max_num_considered);
    let mut considered: usize = max_num_considered;
    let mut turns: usize = rounds_of(considered, log2max, num_simulations);
    let mut visit: usize = 0;
    assert(as_ints(visits@) + schedule(
        considered as int,
        turns as int,
        visit as int,
        num_simulations as int,
        log2max as int,
        num_simulations as int,
    ) =~= goal);
    while visits.len() < num_simulations
        invariant
            log2max >= 1,
            considered >= 2,
            visits@.len() <= num_simulations,
            visit <= visits@.len(),
            as_ints(visits@) + schedule(
                considered as int,
                turns as int,
                visit as int,
                num_simulations - visits@.len(),
                log2max as int,
                num_simulations as int,
            ) == goal,
        decreases
                num_simulations - visits@.len(),
                (if turns == 0 {
                    1int
                } else {
                    0int
                }),
    {
        if turns == 0 {
            considered = if considered / 2 >= 2 {
                considered / 2
            } else {
                2
            };
            turns = rounds_of(considered, log2max, num_simulations);
        } else {
            let left: usize = num_simulations - visits.len();
            let width: usize = if considered <= left {
                considered
            } else {
                left
            };
            let ghost before = visits@;
            for i in 0..width
                invariant
                    visits@ == before + Seq::new(i as nat, |i: int| visit),
            {
                visits.push(visit);
                assert(visits@ =~= before + Seq::new((i + 1) as nat, |i: int| visit));
            }
            proof {
                let block = Seq::new(width as nat, |i: int| visit as int);
                let rest = schedule(
                    considered as int,
                    turns - 1,
                    visit + 1,
                    left - width,
                    log2max as int,
                    num_simulations as int,
                );
                assert(as_ints(visits@) =~= as_ints(before) + block);
                assert(as_ints(before) + (block + rest) =~= as_ints(visits@) + rest);
            }
            visit = visit + 1;
            turns = turns - 1;
        }
    }
    proof {
        assert(schedule(
            considered as int,
            turns as int,
            visit as int,
            0,
            log2max as int,
            num_simulations as int,
        ) =~= Seq::empty());
        assert(as_ints(visits@) =~= goal);
    }
    visits
}

fn rounds_of(considered: usize, log2max: usize, simulations: usize) -> (n: usize)
    requires
        considered >= 1,
        log2max >= 1,
    ensures
        n == rounds(considered as int, log2max as int, simulations as int),
        n >= 1,
{
    proof {
        lemma_div_denominator(simulations as int, log2max as int, considered as int);
    }
    let share: usize = simulations / log2max / considered;
    if share >= 1 {
        share
    } else {
        1
    }
}

/// The table whose row `m` is the sequence for `m` considered actions.
pub open spec fn visit_table(max_considered: int, simulations: int) -> Seq<Seq<int>> {
    Seq::new((max_considered + 1) as nat, |m: int| visit_sequence(m, simulations))
}

/// Rows of counts as mathematical integers.
pub open spec fn rows_as_ints(rows: Seq<Seq<usize>>) -> Seq<Seq<int>> {
    rows.map_values(|row: Seq<usize>| as_ints(row))
}

/// Computes the sequences for all numbers of considered actions up to `max_num_considered`.
pub fn halving_table(max_num_considered: usize, num_simulations: usize) -> (table: VisitGrid)
    requires
        (max_num_considered + 1) * num_simulations <= isize::MAX / 8,
        max_num_considered < isize::MAX,
    ensures
        rows_as_ints(table@) == visit_table(max_num_considered as int, num_simulations as int),
{
    let rows: usize = max_num_considered + 1;
    let cols: usize = num_simulations;
    let mut table = VisitGrid::filled(rows, cols, 0);
    for m in 0..rows
        invariant
            rows == max_num_considered + 1,
            cols == num_simulations,
            has_shape(table@, rows as int, cols as int),
            forall|k: int|
                0 <= k < m ==> as_ints(#[trigger] table@[k]) == visit_sequence(k, cols as int),
    {
        let seq = sequential_halving_seq(m, num_simulations);
        proof {
            law_visit_sequence(m as int, cols as int);
            assert(as_ints(seq@).len() == seq@.len());
        }
        let ghost before = table@;
        for j in 0..cols
            invariant
                m < rows,
                has_shape(table@, rows as int, cols as int),
                seq@.len() == cols,
                forall|k: int| 0 <= k < rows && k != m ==> #[trigger] table@[k] == before[k],
                forall|i: int| 0 <= i < j ==> #[trigger] table@[m as int][i] == seq@[i],
        {
            table.put(m, j, seq[j]);
        }
        assert(table@[m as int] =~= seq@);
    }
    assert(rows_as_ints(table@) =~= visit_table(max_num_considered as int, num_simulations as int));
    table
}

} // verus!
