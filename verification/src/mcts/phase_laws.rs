//! The phases of sequential halving: how many actions each of them visits, and how long it
//! lasts.

use vstd::prelude::*;
use vstd::arithmetic::div_mod::lemma_fundamental_div_mod;
use crate::mcts::halving::{ceil_log2, halved, law_ceil_log2, rounds, schedule, visit_sequence};
use crate::mcts::halving_laws::{lemma_tally_block, lemma_tally_sum, tally};

verus! {

/// How many actions the next round visits when simulations are left for all of them.
spec fn next_width(considered: int, turns: int) -> int {
    if turns > 0 {
        considered
    } else {
        halved(considered)
    }
}

proof fn lemma_rounds(
    considered: int,
    turns: int,
    visit: int,
    left: int,
    log2max: int,
    simulations: int,
    v: int,
)
    requires
        left >= 0,
        considered >= 2,
    ensures
        ({
            let all = schedule(considered, turns, visit, left, log2max, simulations);
            &&& v < visit ==> tally(all, v) == 0
            &&& left == 0 ==> tally(all, v) == 0
            &&& tally(all, v) >= 0
            &&& left > 0 ==> tally(all, visit) > 0
            &&& tally(all, visit + 1) > 0 ==> tally(all, visit) == next_width(considered, turns)
            &&& v >= visit && tally(all, v + 1) > 0 ==> tally(all, v) >= 2
            &&& v >= visit && tally(all, v + 2) > 0 ==> tally(all, v + 1) == tally(all, v) || tally(
                all,
                v + 1,
            ) == halved(tally(all, v))
        }),
    decreases
            left,
            (if turns <= 0 {
                1int
            } else {
                0int
            }),
{
    let all = schedule(considered, turns, visit, left, log2max, simulations);
    if left > 0 {
        if turns <= 0 {
            let next = halved(considered);
            let more = rounds(next, log2max, simulations);
            lemma_rounds(next, more, visit, left, log2max, simulations, v);
        } else {
            let width = if considered <= left {
                considered
            } else {
                left
            };
            let rest = schedule(
                considered,
                turns - 1,
                visit + 1,
                left - width,
                log2max,
                simulations,
            );
            lemma_split(considered, turns, visit, left, log2max, simulations, v);
            lemma_split(considered, turns, visit, left, log2max, simulations, v + 1);
            lemma_split(considered, turns, visit, left, log2max, simulations, v + 2);
            lemma_split(considered, turns, visit, left, log2max, simulations, visit);
            lemma_split(considered, turns, visit, left, log2max, simulations, visit + 1);
            lemma_rounds(
                considered,
                turns - 1,
                visit + 1,
                left - width,
                log2max,
                simulations,
                v,
            );
            lemma_rounds(
                considered,
                turns - 1,
                visit + 1,
                left - width,
                log2max,
                simulations,
                visit,
            );
            lemma_rounds(
                considered,
                turns - 1,
                visit + 1,
                left - width,
                log2max,
                simulations,
                visit + 1,
            );
            lemma_rounds(
                considered,
                turns - 1,
                visit + 1,
                left - width,
                log2max,
                simulations,
                visit + 2,
            );
        }
    } else {
        assert(all =~= Seq::empty());
    }
}

proof fn lemma_split(
    considered: int,
    turns: int,
    visit: int,
    left: int,
    log2max: int,
    simulations: int,
    v: int,
)
    requires
        left > 0,
        considered >= 2,
        turns > 0,
    ensures
        ({
            let width = if considered <= left {
                considered
            } else {
                left
            };
            let all = schedule(considered, turns, visit, left, log2max, simulations);
            let rest = schedule(
                considered,
                turns - 1,
                visit + 1,
                left - width,
                log2max,
                simulations,
            );
            tally(all, v) == tally(rest, v) + (if v == visit {
                width
            } else {
                0
            })
        }),
{
    let width = if considered <= left {
        considered
    } else {
        left
    };
    let block = Seq::new(width as nat, |i: int| visit);
    let rest = schedule(considered, turns - 1, visit + 1, left - width, log2max, simulations);
    assert(schedule(considered, turns, visit, left, log2max, simulations) == block + rest);
    lemma_tally_sum(block, rest, v);
    lemma_tally_block(width as nat, visit, v);
}

proof fn lemma_chain(
    considered: int,
    turns: int,
    visit: int,
    left: int,
    log2max: int,
    simulations: int,
    a: int,
    b: int,
)
    requires
        left >= 0,
        considered >= 2,
        visit <= a <= b,
        tally(schedule(considered, turns, visit, left, log2max, simulations), b + 1) > 0,
    ensures
        ({
            let all = schedule(considered, turns, visit, left, log2max, simulations);
            2 <= tally(all, b) <= tally(all, a)
        }),
    decreases b - a,
{
    lemma_rounds(considered, turns, visit, left, log2max, simulations, b);
    if a < b {
        lemma_rounds(considered, turns, visit, left, log2max, simulations, b - 1);
        lemma_chain(considered, turns, visit, left, log2max, simulations, a, b - 1);
    }
}

proof fn lemma_full(
    considered: int,
    turns: int,
    visit: int,
    left: int,
    log2max: int,
    simulations: int,
    i: int,
)
    requires
        left >= 0,
        considered >= 2,
        0 <= i <= turns,
        tally(schedule(considered, turns, visit, left, log2max, simulations), visit + i + 1) > 0,
    ensures
        tally(schedule(considered, turns, visit, left, log2max, simulations), visit + i) == (if i
            < turns {
            considered
        } else {
            halved(considered)
        }),
    decreases i,
{
    lemma_rounds(considered, turns, visit, left, log2max, simulations, visit + i + 1);
    if i == 0 {
        lemma_rounds(considered, turns, visit, left, log2max, simulations, visit);
    } else {
        let width = if considered <= left {
            considered
        } else {
            left
        };
        lemma_split(considered, turns, visit, left, log2max, simulations, visit + i);
        lemma_split(considered, turns, visit, left, log2max, simulations, visit + i + 1);
        lemma_full(
            considered,
            turns - 1,
            visit + 1,
            left - width,
            log2max,
            simulations,
            i - 1,
        );
    }
}

proof fn lemma_phase(
    considered: int,
    turns: int,
    visit: int,
    left: int,
    log2max: int,
    simulations: int,
    u: int,
    v: int,
)
    requires
        left >= 0,
        considered >= 2,
        visit <= u <= v,
        u == visit ==> turns <= 0 || turns == rounds(considered, log2max, simulations),
        ({
            let all = schedule(considered, turns, visit, left, log2max, simulations);
            &&& u > visit ==> tally(all, u - 1) != tally(all, u)
            &&& tally(all, u) == tally(all, v)
            &&& tally(all, v + 1) != tally(all, v)
            &&& tally(all, v + 2) > 0
        }),
    ensures
        v - u + 1 == rounds(
            tally(schedule(considered, turns, visit, left, log2max, simulations), u),
            log2max,
            simulations,
        ),
    decreases
            left,
            (if turns <= 0 {
                1int
            } else {
                0int
            }),
{
    let all = schedule(considered, turns, visit, left, log2max, simulations);
    lemma_rounds(considered, turns, visit, left, log2max, simulations, v + 2);
    lemma_rounds(considered, turns, visit, left, log2max, simulations, v + 1);
    if turns <= 0 {
        let next = halved(considered);
        let more = rounds(next, log2max, simulations);
        lemma_phase(next, more, visit, left, log2max, simulations, u, v);
    } else if u == visit {
        lemma_chain(considered, turns, visit, left, log2max, simulations, visit + 1, v + 1);
        lemma_full(considered, turns, visit, left, log2max, simulations, 0);
        if v - visit < turns - 1 {
            lemma_full(considered, turns, visit, left, log2max, simulations, v - visit);
            lemma_full(considered, turns, visit, left, log2max, simulations, v - visit + 1);
        } else if v - visit >= turns {
            let w = visit + turns;
            lemma_chain(considered, turns, visit, left, log2max, simulations, w, v);
            lemma_chain(considered, turns, visit, left, log2max, simulations, w + 1, v + 1);
            lemma_full(considered, turns, visit, left, log2max, simulations, turns);
            lemma_chain(considered, turns, visit, left, log2max, simulations, v, v + 1);
        }
    } else {
        let width = if considered <= left {
            considered
        } else {
            left
        };
        lemma_split(considered, turns, visit, left, log2max, simulations, u - 1);
        lemma_split(considered, turns, visit, left, log2max, simulations, u);
        lemma_split(considered, turns, visit, left, log2max, simulations, v);
        lemma_split(considered, turns, visit, left, log2max, simulations, v + 1);
        lemma_split(considered, turns, visit, left, log2max, simulations, v + 2);
        if u == visit + 1 {
            lemma_chain(considered, turns, visit, left, log2max, simulations, u, v + 1);
            lemma_chain(considered, turns, visit, left, log2max, simulations, u + 1, v + 1);
            lemma_full(considered, turns, visit, left, log2max, simulations, 0);
            lemma_full(considered, turns, visit, left, log2max, simulations, 1);
        }
        lemma_phase(
            considered,
            turns - 1,
            visit + 1,
            left - width,
            log2max,
            simulations,
            u,
            v,
        );
    }
}

/// From one round to the next the same number of actions are visited, or half as many, but
/// never fewer than two. The last round, for which simulations may be lacking, can be shorter.
pub proof fn law_half_of_the_actions_go_on(max_considered: int, simulations: int, v: int)
    requires
        max_considered >= 2,
        simulations >= 0,
        v >= 0,
        tally(visit_sequence(max_considered, simulations), v + 2) > 0,
    ensures
        ({
            let here = tally(visit_sequence(max_considered, simulations), v);
            let next = tally(visit_sequence(max_considered, simulations), v + 1);
            &&& here >= 2
            &&& next == here || next == (if here >= 4 {
                here / 2
            } else {
                2
            })
        }),
{
    let log2max = ceil_log2(max_considered);
    let turns = rounds(max_considered, log2max, simulations);
    lemma_chain(max_considered, turns, 0, simulations, log2max, simulations, v, v + 1);
    lemma_rounds(max_considered, turns, 0, simulations, log2max, simulations, v);
}

/// A phase, the rounds `u` to `v` that visit the same number of actions before fewer go on,
/// lasts one round, or as many as fit in an equal share of the simulations: there are as many
/// shares as the number of actions can be halved until one is left.
pub proof fn law_phases_share_simulations(max_considered: int, simulations: int, u: int, v: int)
    requires
        max_considered >= 2,
        simulations >= 0,
        0 <= u <= v,
        ({
            let all = visit_sequence(max_considered, simulations);
            &&& u > 0 ==> tally(all, u - 1) != tally(all, u)
            &&& tally(all, u) == tally(all, v)
            &&& tally(all, v + 1) != tally(all, v)
            &&& tally(all, v + 2) > 0
        }),
    ensures
        ({
            let width = tally(visit_sequence(max_considered, simulations), u);
            let count = v - u + 1;
            let shares = ceil_log2(max_considered);
            &&& count > 1 ==> count * width * shares <= simulations
            &&& (count + 1) * width * shares > simulations
        }),
{
    let shares = ceil_log2(max_considered);
    let turns = rounds(max_considered, shares, simulations);
    let width = tally(visit_sequence(max_considered, simulations), u);
    lemma_phase(max_considered, turns, 0, simulations, shares, simulations, u, v);
    lemma_chain(max_considered, turns, 0, simulations, shares, simulations, u, v + 1);
    law_ceil_log2(max_considered);
    let count = v - u + 1;
    let each = shares * width;
    assert(each > 0) by (nonlinear_arith)
        requires
            each == shares * width,
            shares >= 1,
            width >= 2,
    ;
    lemma_fundamental_div_mod(simulations, each);
    let share = simulations / each;
    let extra = simulations % each;
    assert(0 <= extra < each);
    assert(count * width * shares == each * count) by (nonlinear_arith)
        requires
            each == shares * width,
    ;
    assert((count + 1) * width * shares == each * count + each) by (nonlinear_arith)
        requires
            each == shares * width,
    ;
    if share < 1 {
        assert(each * share <= 0) by (nonlinear_arith)
            requires
                each > 0,
                share <= 0,
        ;
        assert(count == 1);
        assert(each * 1 == each);
    }
}

/// The first round visits all actions that are considered at first, when simulations are left
/// after it.
pub proof fn law_first_round_is_full(max_considered: int, simulations: int)
    requires
        max_considered >= 2,
        simulations >= 0,
        tally(visit_sequence(max_considered, simulations), 1) > 0,
    ensures
        tally(visit_sequence(max_considered, simulations), 0) == max_considered,
{
    let log2max = ceil_log2(max_considered);
    let turns = rounds(max_considered, log2max, simulations);
    lemma_rounds(max_considered, turns, 0, simulations, log2max, simulations, 0);
}

} // verus!
