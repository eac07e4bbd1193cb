//! Of what the values that a search derives are the means. The laws are stated for numbers
//! that are not rounded.

use vstd::prelude::*;
use crate::mcts::noise::cut;
use crate::mcts::policy::{root_worth, weighed};
use crate::mcts::read::sum_of;
use crate::mcts::value::{count_total, mixed_value, shares, visited};
use crate::number::{total, unrounded, v_count, v_negligible, v_over, v_plus, v_times, v_tiny, Real};
use crate::reals::{
    lemma_distribute, lemma_quotient, lemma_rearrange, negligible_is_tiny, unrounded_order,
};

verus! {

/// The probabilities of the visited ones of the first `n` children, added up.
pub open spec fn weight_sum<V>(
    size: spec_fn(V) -> real,
    priors: Seq<V>,
    counts: Seq<usize>,
    n: int,
) -> real
    decreases n,
{
    if n <= 0 {
        0real
    } else {
        weight_sum(size, priors, counts, n - 1) + (if counts[n - 1] > 0 {
            size(priors[n - 1])
        } else {
            0real
        })
    }
}

/// The values of the visited ones of the first `n` children times their probabilities, added
/// up.
pub open spec fn value_sum<V>(
    size: spec_fn(V) -> real,
    values: Seq<V>,
    priors: Seq<V>,
    counts: Seq<usize>,
    n: int,
) -> real
    decreases n,
{
    if n <= 0 {
        0real
    } else {
        value_sum(size, values, priors, counts, n - 1) + (if counts[n - 1] > 0 {
            size(values[n - 1]) * size(priors[n - 1])
        } else {
            0real
        })
    }
}

proof fn lemma_visited_sums<V: Real>(
    size: spec_fn(V) -> real,
    values: Seq<V>,
    priors: Seq<V>,
    counts: Seq<usize>,
    mass: V,
    n: int,
)
    requires
        unrounded(size),
        0 <= n <= counts.len(),
        size(mass) > 0real,
    ensures
        size(total(visited(priors, counts.take(n)))) == weight_sum(size, priors, counts, n),
        size(
            total(
                shares(visited(values, counts.take(n)), visited(priors, counts.take(n)), mass),
            ),
        ) * size(mass) == value_sum(size, values, priors, counts, n),
        visited(values, counts.take(n)).len() == visited(priors, counts.take(n)).len(),
    decreases n,
{
    let m = size(mass);
    let part = counts.take(n);
    let known = visited(values, part);
    let weights = visited(priors, part);
    if n == 0 {
        assert(part =~= Seq::empty());
        assert(shares(known, weights, mass) =~= Seq::empty());
        assert(0real * m == 0real);
    } else {
        lemma_visited_sums(size, values, priors, counts, mass, n - 1);
        let rest = counts.take(n - 1);
        assert(part.drop_last() =~= rest);
        let before = visited(values, rest);
        let fewer = visited(priors, rest);
        if counts[n - 1] > 0 {
            let v = size(values[n - 1]);
            let p = size(priors[n - 1]);
            assert(weights.drop_last() =~= fewer);
            assert(shares(known, weights, mass).drop_last() =~= shares(before, fewer, mass));
            assert(shares(known, weights, mass).last() == v_over(
                v_times(values[n - 1], priors[n - 1]),
                mass,
            ));
            lemma_quotient(v * p, m);
            lemma_distribute(size(total(shares(before, fewer, mass))), v * p / m, m);
        }
    }
}

/// The mixed value is the mean of the node's own value, which counts once, and of the mean of
/// the values of the visited children, weighed by their probabilities, which counts as often
/// as the children were visited together. With a negligible weight it is the node's own value.
pub proof fn law_mixed_value_is_mean<V: Real>(
    size: spec_fn(V) -> real,
    raw_value: V,
    values: Seq<V>,
    counts: Seq<usize>,
    priors: Seq<V>,
)
    requires
        unrounded_order(size),
        negligible_is_tiny(size),
        values.len() == counts.len(),
        priors.len() == counts.len(),
        0 < count_total(counts) <= usize::MAX,
    ensures
        ({
            let n = count_total(counts) as real;
            let mixed = size(mixed_value(raw_value, values, counts, priors));
            let weight = weight_sum(size, priors, counts, counts.len() as int);
            &&& weight > size(v_tiny()) ==> (mixed * (1real + n) - size(raw_value)) * weight == n
                * value_sum(size, values, priors, counts, counts.len() as int)
            &&& weight <= size(v_tiny()) ==> mixed == size(raw_value)
        }),
{
    let len = counts.len() as int;
    assert(counts.take(len) =~= counts);
    let mass = total(visited(priors, counts));
    let w = weight_sum(size, priors, counts, len);
    assert(size(mass) == w) by {
        lemma_weights_only(size, priors, counts, len);
    }
    if w <= size(v_tiny()) {
        assert(v_negligible(mass));
    } else {
        assert(!v_negligible(mass));
        lemma_visited_sums(size, values, priors, counts, mass, len);
        let mean = total(shares(visited(values, counts), visited(priors, counts), mass));
        let many = v_count::<V>(count_total(counts) as usize);
        let n = count_total(counts) as real;
        let q = size(mean);
        let r = size(raw_value);
        let x = r + n * q;
        assert(size(v_plus(raw_value, v_times(many, mean))) == x);
        assert(size(v_plus(v_count(1), many)) == 1real + n);
        lemma_quotient(x, 1real + n);
        lemma_rearrange(n, q, w);
    }
}

proof fn lemma_weights_only<V: Real>(
    size: spec_fn(V) -> real,
    priors: Seq<V>,
    counts: Seq<usize>,
    n: int,
)
    requires
        unrounded(size),
        0 <= n <= counts.len(),
    ensures
        size(total(visited(priors, counts.take(n)))) == weight_sum(size, priors, counts, n),
    decreases n,
{
    let part = counts.take(n);
    if n == 0 {
        assert(part =~= Seq::empty());
    } else {
        lemma_weights_only(size, priors, counts, n - 1);
        assert(part.drop_last() =~= counts.take(n - 1));
        if counts[n - 1] > 0 {
            assert(visited(priors, part).drop_last() =~= visited(priors, counts.take(n - 1)));
        }
    }
}

/// The values of the first `n` actions times their visits, added up.
pub open spec fn visit_sum<V>(
    size: spec_fn(V) -> real,
    values: Seq<V>,
    visits: Seq<u32>,
    n: int,
) -> real
    decreases n,
{
    if n <= 0 {
        0real
    } else {
        visit_sum(size, values, visits, n - 1) + visits[n - 1] as real * size(values[n - 1])
    }
}

proof fn lemma_visit_sum<V: Real>(
    size: spec_fn(V) -> real,
    values: Seq<V>,
    visits: Seq<u32>,
    n: int,
)
    requires
        unrounded(size),
        values.len() == visits.len(),
        0 <= n <= visits.len(),
        0 < sum_of(visits) <= u32::MAX,
    ensures
        size(total(weighed(values, visits).take(n))) * sum_of(visits) as real == visit_sum(
            size,
            values,
            visits,
            n,
        ),
    decreases n,
{
    let all = sum_of(visits) as real;
    let terms = weighed(values, visits);
    if n == 0 {
        assert(terms.take(0) =~= Seq::empty());
        assert(0real * all == 0real);
    } else {
        lemma_visit_sum(size, values, visits, n - 1);
        assert(terms.take(n).drop_last() =~= terms.take(n - 1));
        assert(terms.take(n).last() == terms[n - 1]);
        let c = visits[n - 1] as real;
        let v = size(values[n - 1]);
        assert(size(terms[n - 1]) == c / all * v);
        lemma_quotient(c, all);
        lemma_rearrange(c / all, v, all);
        lemma_distribute(size(total(terms.take(n - 1))), c / all * v, all);
    }
}

/// The value of the root is the mean of the values of the actions, each counted as often as
/// the action was tried.
pub proof fn law_root_value_is_mean<V: Real>(
    size: spec_fn(V) -> real,
    values: Seq<V>,
    visits: Seq<u32>,
    nn_value: V,
)
    requires
        unrounded(size),
        values.len() == visits.len(),
        0 < sum_of(visits) <= u32::MAX,
    ensures
        size(root_worth(values, visits, nn_value)) * sum_of(visits) as real == visit_sum(
            size,
            values,
            visits,
            visits.len() as int,
        ),
{
    let n = visits.len() as int;
    lemma_visit_sum(size, values, visits, n);
    assert(weighed(values, visits).take(n) =~= weighed(values, visits));
}

/// A number is cut off at 12 and at -12, and stays as it is in between.
pub proof fn law_cut<V: Real>(size: spec_fn(V) -> real, x: V)
    requires
        unrounded_order(size),
    ensures
        -12real <= size(cut(x)) <= 12real,
        -12real <= size(x) <= 12real ==> size(cut(x)) == size(x),
        size(x) > 12real ==> size(cut(x)) == 12real,
        size(x) < -12real ==> size(cut(x)) == -12real,
{
}

} // verus!
