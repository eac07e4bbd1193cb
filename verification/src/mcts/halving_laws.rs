//! Why sequential halving always finds an action to visit.

use vstd::prelude::*;
use crate::mcts::halving::{ceil_log2, halved, law_visit_sequence, rounds, schedule, visit_sequence};

verus! {

/// How many entries equal `v`.
pub open spec fn tally(entries: Seq<int>, v: int) -> int
    decreases entries.len(),
{
    if entries.len() == 0 {
        0
    } else {
        tally(entries.drop_last(), v) + (if entries.last() == v {
            1int
        } else {
            0int
        })
    }
}

/// How many entries exceed `v`.
pub open spec fn above(entries: Seq<int>, v: int) -> int
    decreases entries.len(),
{
    if entries.len() == 0 {
        0
    } else {
        above(entries.drop_last(), v) + (if entries.last() > v {
            1int
        } else {
            0int
        })
    }
}

pub proof fn lemma_tally_sum(a: Seq<int>, b: Seq<int>, v: int)
    ensures
        tally(a + b, v) == tally(a, v) + tally(b, v),
        tally(b, v) >= 0,
    decreases b.len(),
{
    if b.len() == 0 {
        assert(a + b =~= a);
    } else {
        lemma_tally_sum(a, b.drop_last(), v);
        assert((a + b).drop_last() =~= a + b.drop_last());
    }
}

pub proof fn lemma_tally_block(width: nat, x: int, v: int)
    ensures
        tally(Seq::new(width, |i: int| x), v) == (if v == x {
            width as int
        } else {
            0
        }),
    decreases width,
{
    let block = Seq::new(width, |i: int| x);
    if width > 0 {
        lemma_tally_block((width - 1) as nat, x, v);
        assert(block.drop_last() =~= Seq::new((width - 1) as nat, |i: int| x));
    }
}

proof fn lemma_tally_absent(entries: Seq<int>, v: int)
    requires
        forall|i: int| 0 <= i < entries.len() ==> #[trigger] entries[i] != v,
    ensures
        tally(entries, v) == 0,
    decreases entries.len(),
{
    if entries.len() > 0 {
        assert forall|i: int| 0 <= i < entries.drop_last().len() implies #[trigger] entries.drop_last()[i]
            != v by {
            assert(entries.drop_last()[i] == entries[i]);
        }
        lemma_tally_absent(entries.drop_last(), v);
    }
}

proof fn lemma_schedule_shrinks(
    considered: int,
    turns: int,
    visit: int,
    left: int,
    log2max: int,
    simulations: int,
    v: int,
)
    requires
        left >= 0,
        considered >= 2,
    ensures
        ({
            let all = schedule(considered, turns, visit, left, log2max, simulations);
            &&& v < visit ==> tally(all, v) == 0
            &&& v == visit ==> tally(all, v) <= considered && tally(all, v) <= left
            &&& v >= visit ==> tally(all, v) >= tally(all, v + 1)
        }),
    decreases
            left,
            (if turns <= 0 {
                1int
            } else {
                0int
            }),
{
    let all = schedule(considered, turns, visit, left, log2max, simulations);
    if left > 0 {
        if turns <= 0 {
            let next = halved(considered);
            let more = rounds(next, log2max, simulations);
            lemma_schedule_shrinks(next, more, visit, left, log2max, simulations, v);
        } else {
            let width = if considered <= left {
                considered
            } else {
                left
            };
            let block = Seq::new(width as nat, |i: int| visit);
            let rest = schedule(
                considered,
                turns - 1,
                visit + 1,
                left - width,
                log2max,
                simulations,
            );
            assert(all == block + rest);
            lemma_schedule_shrinks(
                considered,
                turns - 1,
                visit + 1,
                left - width,
                log2max,
                simulations,
                v,
            );
            lemma_schedule_shrinks(
                considered,
                turns - 1,
                visit + 1,
                left - width,
                log2max,
                simulations,
                v + 1,
            );
            lemma_tally_sum(block, rest, v);
            lemma_tally_sum(block, rest, v + 1);
            lemma_tally_block(width as nat, visit, v);
            lemma_tally_block(width as nat, visit, v + 1);
        }
    } else {
        assert(all =~= Seq::empty());
    }
}

/// Each round visits at most as many actions as the round before, and the first at most as
/// many as are considered.
pub proof fn law_rounds_shrink(max_considered: int, simulations: int, v: int)
    requires
        simulations >= 0,
        v >= 0,
    ensures
        tally(visit_sequence(max_considered, simulations), v) >= tally(
            visit_sequence(max_considered, simulations),
            v + 1,
        ),
        tally(visit_sequence(max_considered, simulations), 0) <= (if max_considered >= 1 {
            max_considered
        } else {
            1
        }),
{
    let all = visit_sequence(max_considered, simulations);
    if max_considered > 1 {
        let log2max = ceil_log2(max_considered);
        let turns = rounds(max_considered, log2max, simulations);
        lemma_schedule_shrinks(max_considered, turns, 0, simulations, log2max, simulations, v);
        lemma_schedule_shrinks(max_considered, turns, 0, simulations, log2max, simulations, 0);
    } else {
        lemma_tally_counting(simulations as nat, v);
        lemma_tally_counting(simulations as nat, v + 1);
        lemma_tally_counting(simulations as nat, 0);
        assert(all =~= Seq::new(simulations as nat, |i: int| i));
    }
}

proof fn lemma_tally_counting(n: nat, v: int)
    requires
        v >= 0,
    ensures
        tally(Seq::new(n, |i: int| i), v) == (if v < n {
            1int
        } else {
            0
        }),
    decreases n,
{
    let all = Seq::new(n, |i: int| i);
    if n > 0 {
        assert(all.drop_last() =~= Seq::new((n - 1) as nat, |i: int| i));
        lemma_tally_counting((n - 1) as nat, v);
    }
}

/// The visit counts of the actions after `done` simulations, each of which visited an
/// action with the visit count that `sequence` asks for: the actions with more than `v`
/// visits are those that the entries `v` of the sequence were spent on.
pub open spec fn in_step(visits: Seq<int>, sequence: Seq<int>, done: int) -> bool {
    &&& forall|i: int| 0 <= i < visits.len() ==> #[trigger] visits[i] >= 0
    &&& forall|v: int|
        v >= 0 ==> #[trigger] above(visits, v) == tally(sequence.take(done), v)
}

/// Before the first simulation no action was visited.
pub proof fn law_halving_starts(count: nat, sequence: Seq<int>)
    ensures
        in_step(Seq::new(count, |i: int| 0int), sequence, 0),
{
    let visits = Seq::new(count, |i: int| 0int);
    assert(sequence.take(0) =~= Seq::empty());
    assert forall|v: int| v >= 0 implies #[trigger] above(visits, v) == tally(
        sequence.take(0),
        v,
    ) by {
        lemma_none_above(visits, v);
    }
}

proof fn lemma_none_above(visits: Seq<int>, v: int)
    requires
        forall|i: int| 0 <= i < visits.len() ==> #[trigger] visits[i] <= v,
    ensures
        above(visits, v) == 0,
    decreases visits.len(),
{
    if visits.len() > 0 {
        assert forall|i: int| 0 <= i < visits.drop_last().len() implies #[trigger] visits.drop_last()[i]
            <= v by {
            assert(visits.drop_last()[i] == visits[i]);
        }
        lemma_none_above(visits.drop_last(), v);
    }
}

/// The first round visits each of the actions that are considered at first once.
pub proof fn law_first_round(max_considered: int, simulations: int, i: int)
    requires
        0 <= i < max_considered,
        i < simulations,
    ensures
        visit_sequence(max_considered, simulations)[i] == 0,
{
    if max_considered > 1 {
        let log2max = ceil_log2(max_considered);
        let turns = rounds(max_considered, log2max, simulations);
        let width = if max_considered <= simulations {
            max_considered
        } else {
            simulations
        };
        let block = Seq::new(width as nat, |i: int| 0int);
        let rest = schedule(
            max_considered,
            turns - 1,
            1,
            simulations - width,
            log2max,
            simulations,
        );
        assert(visit_sequence(max_considered, simulations) == block + rest);
        assert((block + rest)[i] == block[i]);
    }
}

proof fn lemma_tally_bound(entries: Seq<int>, v: int)
    ensures
        tally(entries, v) <= entries.len(),
    decreases entries.len(),
{
    if entries.len() > 0 {
        lemma_tally_bound(entries.drop_last(), v);
    }
}

/// When at least as many actions can be visited as are considered at first, then at every
/// simulation some action has exactly the visit count that the sequence asks for. When there
/// are fewer, that holds until each of them was visited.
pub proof fn law_halving_finds_an_action(
    visits: Seq<int>,
    max_considered: int,
    simulations: int,
    done: int,
)
    requires
        0 <= done < simulations,
        visits.len() >= 1,
        visits.len() >= max_considered || done < visits.len(),
        in_step(visits, visit_sequence(max_considered, simulations), done),
    ensures
        exists|i: int|
            0 <= i < visits.len() && #[trigger] visits[i] == visit_sequence(
                max_considered,
                simulations,
            )[done],
{
    let sequence = visit_sequence(max_considered, simulations);
    law_visit_sequence(max_considered, simulations);
    let v = sequence[done];
    let past = sequence.take(done);
    let rest = sequence.skip(done);
    assert(past + rest =~= sequence);
    lemma_tally_sum(past, rest, v);
    assert(rest =~= seq![v] + rest.skip(1));
    lemma_tally_sum(seq![v], rest.skip(1), v);
    assert(tally(seq![v], v) == 1) by {
        assert(seq![v].drop_last() =~= Seq::empty());
        assert(tally(seq![v].drop_last(), v) == 0);
    }
    assert(above(visits, v) == tally(past, v));
    if v == 0 {
        law_rounds_shrink(max_considered, simulations, 0);
        lemma_tally_bound(past, 0);
        lemma_all_above(visits);
        lemma_between(visits, 0);
    } else {
        if visits.len() < max_considered {
            law_first_round(max_considered, simulations, done);
        }
        law_rounds_shrink(max_considered, simulations, v - 1);
        lemma_tally_sum(past, rest, v - 1);
        assert forall|i: int| 0 <= i < rest.len() implies #[trigger] rest[i] != v - 1 by {
            lemma_never_decreases(sequence, done, done + i);
            assert(rest[i] == sequence[done + i]);
        }
        lemma_tally_absent(rest, v - 1);
        assert(above(visits, v - 1) == tally(past, v - 1));
        lemma_between(visits, v);
    }
}

/// When no more actions can be visited than are considered at first, then each of them was
/// visited after as many simulations.
pub proof fn law_halving_tries_every_action(
    visits: Seq<int>,
    max_considered: int,
    simulations: int,
)
    requires
        visits.len() <= max_considered,
        visits.len() <= simulations,
        in_step(visits, visit_sequence(max_considered, simulations), visits.len() as int),
    ensures
        forall|i: int| 0 <= i < visits.len() ==> #[trigger] visits[i] >= 1,
{
    let sequence = visit_sequence(max_considered, simulations);
    let past = sequence.take(visits.len() as int);
    law_visit_sequence(max_considered, simulations);
    assert forall|i: int| 0 <= i < past.len() implies #[trigger] past[i] == 0 by {
        law_first_round(max_considered, simulations, i);
    }
    assert(past =~= Seq::new(visits.len(), |i: int| 0int));
    lemma_tally_block(visits.len(), 0, 0);
    assert(above(visits, 0) == tally(past, 0));
    lemma_all_visited(visits);
}

proof fn lemma_above_bound(visits: Seq<int>, v: int)
    ensures
        above(visits, v) <= visits.len(),
    decreases visits.len(),
{
    if visits.len() > 0 {
        lemma_above_bound(visits.drop_last(), v);
    }
}

proof fn lemma_all_visited(visits: Seq<int>)
    requires
        above(visits, 0) == visits.len(),
    ensures
        forall|i: int| 0 <= i < visits.len() ==> #[trigger] visits[i] >= 1,
    decreases visits.len(),
{
    if visits.len() > 0 {
        let rest = visits.drop_last();
        lemma_above_bound(rest, 0);
        lemma_all_visited(rest);
        assert forall|i: int| 0 <= i < visits.len() implies #[trigger] visits[i] >= 1 by {
            if i < rest.len() {
                assert(rest[i] >= 1);
            }
        }
    }
}

proof fn lemma_never_decreases(sequence: Seq<int>, i: int, j: int)
    requires
        0 <= i <= j < sequence.len(),
        forall|k: int|
            0 < k < sequence.len() ==> {
                let before = sequence[k - 1];
                let here = #[trigger] sequence[k];
                before <= here <= before + 1
            },
    ensures
        sequence[i] <= sequence[j],
    decreases j - i,
{
    if i < j {
        lemma_never_decreases(sequence, i, j - 1);
        assert(sequence[j - 1] <= sequence[j]);
    }
}

proof fn lemma_all_above(visits: Seq<int>)
    requires
        forall|i: int| 0 <= i < visits.len() ==> #[trigger] visits[i] >= 0,
    ensures
        above(visits, -1) == visits.len(),
    decreases visits.len(),
{
    if visits.len() > 0 {
        assert forall|i: int| 0 <= i < visits.drop_last().len() implies #[trigger] visits.drop_last()[i]
            >= 0 by {
            assert(visits.drop_last()[i] == visits[i]);
        }
        lemma_all_above(visits.drop_last());
    }
}

proof fn lemma_between(visits: Seq<int>, v: int)
    requires
        above(visits, v - 1) > above(visits, v),
    ensures
        exists|i: int| 0 <= i < visits.len() && #[trigger] visits[i] == v,
    decreases visits.len(),
{
    if visits.len() > 0 {
        if visits.last() == v {
            assert(visits[visits.len() - 1] == v);
        } else {
            lemma_between(visits.drop_last(), v);
            let i = choose|i: int|
                0 <= i < visits.drop_last().len() && #[trigger] visits.drop_last()[i] == v;
            assert(visits[i] == v);
        }
    }
}

/// Visiting such an action keeps the visit counts in step with the sequence.
pub proof fn law_halving_goes_on(visits: Seq<int>, sequence: Seq<int>, done: int, chosen: int)
    requires
        0 <= done < sequence.len(),
        0 <= chosen < visits.len(),
        in_step(visits, sequence, done),
        visits[chosen] == sequence[done],
    ensures
        in_step(visits.update(chosen, visits[chosen] + 1), sequence, done + 1),
{
    let next = visits.update(chosen, visits[chosen] + 1);
    let past = sequence.take(done);
    assert(sequence.take(done + 1) =~= past.push(sequence[done]));
    assert(past.push(sequence[done]).drop_last() =~= past);
    assert forall|v: int| v >= 0 implies #[trigger] above(next, v) == tally(
        sequence.take(done + 1),
        v,
    ) by {
        lemma_above_update(visits, chosen, v);
        assert(above(visits, v) == tally(past, v));
    }
}

proof fn lemma_above_update(visits: Seq<int>, chosen: int, v: int)
    requires
        0 <= chosen < visits.len(),
    ensures
        above(visits.update(chosen, visits[chosen] + 1), v) == above(visits, v) + (if visits[chosen]
            == v {
            1int
        } else {
            0int
        }),
    decreases visits.len(),
{
    let next = visits.update(chosen, visits[chosen] + 1);
    if chosen == visits.len() - 1 {
        assert(next.drop_last() =~= visits.drop_last());
    } else {
        lemma_above_update(visits.drop_last(), chosen, v);
        assert(next.drop_last() =~= visits.drop_last().update(chosen, visits[chosen] + 1));
    }
}

} // verus!
