//! What the probabilities that a search deals with are: how they follow from the numbers of
//! the evaluator, from values, from visits and from noise. The laws are stated for numbers
//! that are not rounded.

use vstd::prelude::*;
use crate::mcts::config::GumbelConfig;
use crate::mcts::game::{ActionId, Scored};
use crate::mcts::node::{lists, NodeId, NodeState};
use crate::mcts::policy::{
    count_shares, exponentials, improved, law_softmax_adds_up, legal_shares, logarithms, noisy,
    scattered, selected, shares_of, softmax, surprise,
};
use crate::mcts::value::completed;
use crate::number::{
    greatest, total, v_count, v_exp, v_is_zero, v_larger, v_ln, v_lowest, v_minus, v_over, v_plus,
    v_positive, v_tiny, v_zero, Real,
};
use crate::reals::{
    is_exponential, lemma_cancel, lemma_distribute, lemma_power_grows, lemma_power_of_difference,
    lemma_power_of_sum, lemma_quotient, lemma_rearrange, lemma_same_ratio, lemma_total_positive,
    negligible_is_tiny, unrounded_exp, unrounded_order,
};

verus! {

proof fn lemma_quotients_in_ratio(
    power: spec_fn(real) -> real,
    x: real,
    y: real,
    g: real,
    s: real,
    a: real,
    b: real,
)
    requires
        power(x - g) * power(g) == power(x),
        power(y - g) * power(g) == power(y),
        power(x - g) > 0real,
        s > 0real,
        a == power(x - g) / s,
        b == power(y - g) / s,
    ensures
        a * power(y) == b * power(x),
        a > 0real,
{
    let e = power(x - g);
    let f = power(y - g);
    let z = power(g);
    lemma_same_ratio(e, f, s);
    assert(a * f == b * e);
    lemma_rearrange(a, f, z);
    lemma_rearrange(b, e, z);
}

/// The probabilities of two actions stand to each other as the exponentials of the evaluator's
/// numbers for them, and none is zero.
pub proof fn law_shares_in_ratio<V: Real>(
    size: spec_fn(V) -> real,
    power: spec_fn(real) -> real,
    chosen: Seq<V>,
    i: int,
    j: int,
)
    requires
        unrounded_exp(size, power),
        0 <= i < chosen.len(),
        0 <= j < chosen.len(),
    ensures
        size(shares_of(chosen)[i]) * power(size(chosen[j])) == size(shares_of(chosen)[j]) * power(
            size(chosen[i]),
        ),
        size(shares_of(chosen)[i]) > 0real,
{
    let g = size(greatest(chosen));
    let exps = Seq::new(chosen.len(), |k: int| v_exp(v_minus(chosen[k], greatest(chosen))));
    assert forall|k: int| 0 <= k < exps.len() implies size(#[trigger] exps[k]) > 0real by {
        lemma_power_of_difference(power, size(chosen[k]), g);
    }
    lemma_total_positive(size, exps);
    lemma_power_of_difference(power, size(chosen[i]), g);
    lemma_power_of_difference(power, size(chosen[j]), g);
    assert(v_positive(total(exps)));
    assert(shares_of(chosen)[i] == v_over(exps[i], total(exps)));
    assert(shares_of(chosen)[j] == v_over(exps[j], total(exps)));
    lemma_quotients_in_ratio(
        power,
        size(chosen[i]),
        size(chosen[j]),
        g,
        size(total(exps)),
        size(shares_of(chosen)[i]),
        size(shares_of(chosen)[j]),
    );
}

/// Every legal action has a probability above zero, those of two of them stand to each other
/// as the exponentials of the evaluator's numbers for them, and the other actions have none.
pub proof fn law_legal_probabilities<V: Real>(
    size: spec_fn(V) -> real,
    power: spec_fn(real) -> real,
    logits: Seq<V>,
    legal: Seq<ActionId>,
    probs: Seq<V>,
    a: ActionId,
    b: ActionId,
)
    requires
        unrounded_exp(size, power),
        legal.no_duplicates(),
        forall|k: int| 0 <= k < legal.len() ==> (#[trigger] legal[k]) < logits.len(),
        scattered(legal, legal_shares(logits, legal), logits.len() as int, v_zero(), probs),
        a < logits.len(),
        b < logits.len(),
    ensures
        legal.contains(a) ==> size(probs[a as int]) > 0real,
        !legal.contains(a) ==> size(probs[a as int]) == 0real,
        legal.contains(a) && legal.contains(b) ==> size(probs[a as int]) * power(
            size(logits[b as int]),
        ) == size(probs[b as int]) * power(size(logits[a as int])),
{
    let chosen = selected(logits, legal);
    if legal.contains(a) {
        let i = choose|i: int| 0 <= i < legal.len() && legal[i] == a;
        law_shares_in_ratio(size, power, chosen, i, i);
        assert(probs[legal[i] as int] == legal_shares(logits, legal)[i]);
        if legal.contains(b) {
            let j = choose|j: int| 0 <= j < legal.len() && legal[j] == b;
            law_shares_in_ratio(size, power, chosen, i, j);
            assert(probs[legal[j] as int] == legal_shares(logits, legal)[j]);
        }
    } else {
        assert(!legal.contains((a as int) as usize));
        assert(probs[a as int] == v_zero::<V>());
    }
}

/// Probabilities at a temperature: those of two entries stand to each other as the exponentials
/// of the values divided by the temperature, and none is zero.
pub proof fn law_softmax_in_ratio<V: Real>(
    size: spec_fn(V) -> real,
    power: spec_fn(real) -> real,
    values: Seq<V>,
    temperature: V,
    i: int,
    j: int,
)
    requires
        unrounded_exp(size, power),
        size(temperature) != 0real,
        0 <= i < values.len(),
        0 <= j < values.len(),
    ensures
        size(softmax(values, temperature)[i]) * power(size(values[j]) / size(temperature)) == size(
            softmax(values, temperature)[j],
        ) * power(size(values[i]) / size(temperature)),
        size(softmax(values, temperature)[i]) > 0real,
        v_positive(total(exponentials(values, temperature))),
{
    let g = size(greatest(values));
    let t = size(temperature);
    let exps = exponentials(values, temperature);
    assert forall|k: int| 0 <= k < exps.len() implies size(#[trigger] exps[k]) > 0real && size(
        exps[k],
    ) == power(size(values[k]) / t - g / t) by {
        let x = size(values[k]);
        assert((x - g) / t == x / t - g / t) by (nonlinear_arith)
            requires
                t != 0real,
        ;
        lemma_power_of_difference(power, x / t, g / t);
    }
    lemma_total_positive(size, exps);
    let x = size(values[i]) / t;
    let y = size(values[j]) / t;
    lemma_power_of_difference(power, x, g / t);
    lemma_power_of_difference(power, y, g / t);
    assert(!v_is_zero(temperature));
    assert(size(exps[i]) == power(x - g / t));
    assert(size(exps[j]) == power(y - g / t));
    lemma_quotients_in_ratio(
        power,
        x,
        y,
        g / t,
        size(total(exps)),
        size(softmax(values, temperature)[i]),
        size(softmax(values, temperature)[j]),
    );
}

/// At temperature 0 all entries have the same probability.
pub proof fn law_softmax_without_temperature<V: Real>(
    size: spec_fn(V) -> real,
    values: Seq<V>,
    temperature: V,
    i: int,
)
    requires
        unrounded_order(size),
        size(temperature) == 0real,
        0 <= i < values.len() <= usize::MAX,
    ensures
        size(softmax(values, temperature)[i]) * values.len() as real == 1real,
{
    assert(v_is_zero(temperature));
    let n = values.len() as real;
    assert(softmax(values, temperature)[i] == v_over::<V>(
        v_count(1),
        v_count(values.len() as usize),
    ));
    assert(1real / n * n == 1real) by (nonlinear_arith)
        requires
            n >= 1real,
    ;
}

proof fn lemma_same_power(power: spec_fn(real) -> real, x: real, y: real)
    requires
        is_exponential(power),
        power(x) == power(y),
    ensures
        x == y,
{
    if x < y {
        lemma_power_grows(power, x, y);
    } else if y < x {
        lemma_power_grows(power, y, x);
    }
}

/// The probabilities of two actions that were visited stand to each other as their visits
/// raised to the inverse of the temperature: `x` and `y` are the logarithms of the visits.
pub proof fn law_count_shares_in_ratio<V: Real>(
    size: spec_fn(V) -> real,
    power: spec_fn(real) -> real,
    counts: Seq<u32>,
    temperature: V,
    i: int,
    j: int,
    x: real,
    y: real,
)
    requires
        unrounded_exp(size, power),
        size(temperature) != 0real,
        0 <= i < counts.len(),
        0 <= j < counts.len(),
        power(x) == counts[i] as real,
        power(y) == counts[j] as real,
    ensures
        size(count_shares(counts, temperature)[i]) * power(y / size(temperature)) == size(
            count_shares(counts, temperature)[j],
        ) * power(x / size(temperature)),
        size(count_shares(counts, temperature)[i]) > 0real,
{
    lemma_power_of_sum(power, x, 0real);
    lemma_power_of_sum(power, y, 0real);
    let logs = logarithms::<V>(counts);
    assert(counts[i] != 0);
    let a = v_count::<V>(counts[i] as usize);
    let b = v_count::<V>(counts[j] as usize);
    assert(power(size(v_ln(a))) == size(a));
    assert(power(size(v_ln(b))) == size(b));
    lemma_same_power(power, size(v_ln(a)), x);
    lemma_same_power(power, size(v_ln(b)), y);
    assert(logs[i] == v_ln(a) && logs[j] == v_ln(b));
    law_softmax_in_ratio(size, power, logs, temperature, i, j);
}

/// At temperature 1 the probabilities of actions are proportional to their visits.
pub proof fn law_count_shares_are_proportional<V: Real>(
    size: spec_fn(V) -> real,
    power: spec_fn(real) -> real,
    counts: Seq<u32>,
    temperature: V,
    i: int,
    j: int,
)
    requires
        unrounded_exp(size, power),
        size(temperature) == 1real,
        0 <= i < counts.len(),
        0 <= j < counts.len(),
        counts[i] > 0,
        counts[j] > 0,
    ensures
        size(count_shares(counts, temperature)[i]) * counts[j] as real == size(
            count_shares(counts, temperature)[j],
        ) * counts[i] as real,
{
    let a = v_count::<V>(counts[i] as usize);
    let b = v_count::<V>(counts[j] as usize);
    let x = size(v_ln(a));
    let y = size(v_ln(b));
    assert(power(x) == size(a) && power(y) == size(b));
    law_count_shares_in_ratio(size, power, counts, temperature, i, j, x, y);
    assert(x / 1real == x && y / 1real == y);
}

/// Where no action was visited all have the same probability. In any case the probabilities add
/// up to 1.
pub proof fn law_count_shares_add_up<V: Real>(
    size: spec_fn(V) -> real,
    power: spec_fn(real) -> real,
    counts: Seq<u32>,
    temperature: V,
    i: int,
)
    requires
        unrounded_exp(size, power),
        0 <= i < counts.len() <= usize::MAX,
    ensures
        (forall|k: int| 0 <= k < counts.len() ==> #[trigger] counts[k] == 0) ==> size(
            count_shares(counts, temperature)[i],
        ) * counts.len() as real == 1real,
        size(total(count_shares(counts, temperature))) == 1real,
{
    let logs = logarithms::<V>(counts);
    let zero = v_count::<V>(0);
    if forall|k: int| 0 <= k < counts.len() ==> #[trigger] counts[k] == 0 {
        assert(softmax(logs, zero) == count_shares(counts, temperature));
        law_softmax_without_temperature(size, logs, zero, i);
        law_softmax_adds_up(size, logs, zero);
    } else {
        if size(temperature) != 0real {
            law_softmax_in_ratio(size, power, logs, temperature, i, i);
        }
        law_softmax_adds_up(size, logs, temperature);
    }
}

/// Below temperature 1 the more visited of two actions gets more than its part of the visits.
pub proof fn law_low_temperature_is_greedier<V: Real>(
    size: spec_fn(V) -> real,
    power: spec_fn(real) -> real,
    counts: Seq<u32>,
    temperature: V,
    i: int,
    j: int,
)
    requires
        unrounded_exp(size, power),
        0real < size(temperature) < 1real,
        0 <= i < counts.len(),
        0 <= j < counts.len(),
        counts[i] > counts[j] > 0,
    ensures
        size(count_shares(counts, temperature)[i]) * counts[j] as real > size(
            count_shares(counts, temperature)[j],
        ) * counts[i] as real,
{
    let a = v_count::<V>(counts[i] as usize);
    let b = v_count::<V>(counts[j] as usize);
    let x = size(v_ln(a));
    let y = size(v_ln(b));
    let t = size(temperature);
    assert(power(x) == size(a) && power(y) == size(b));
    law_count_shares_in_ratio(size, power, counts, temperature, i, j, x, y);
    law_count_shares_in_ratio(size, power, counts, temperature, j, i, y, x);
    if x <= y {
        if x < y {
            lemma_power_grows(power, x, y);
        }
        assert(false);
    }
    let d = x - y;
    lemma_quotient(x, t);
    lemma_quotient(y, t);
    lemma_distribute(x / t, y / t, t);
    assert(d * t < d) by (nonlinear_arith)
        requires
            t < 1real,
            d > 0real,
    ;
    lemma_cancel(d, x / t - y / t, t);
    lemma_power_of_difference(power, x, y);
    lemma_power_of_difference(power, x / t, y / t);
    lemma_power_grows(power, d, x / t - y / t);
    let p = size(count_shares(counts, temperature)[i]);
    let q = size(count_shares(counts, temperature)[j]);
    let u = power(x / t - y / t);
    let v = power(y / t);
    assert(p * v == q * (u * v));
    lemma_rearrange(q, u, v);
    lemma_cancel(p, q * u, v);
    let w = power(d);
    let n = power(y);
    lemma_cancel(w, u, q);
    lemma_rearrange(q, u, 1real);
    lemma_rearrange(q, w, n);
    lemma_rearrange(w, q, n);
    lemma_cancel(w * q, u * q, n);
    assert(p * n > q * (w * n));
}

/// The improved policy: the probabilities of two children stand to each other as the
/// exponentials of the evaluator's number and the completed value added up, none of them is
/// zero, and with those of the other actions they add up to 1.
pub proof fn law_improved_policy_in_ratio<G: Scored<V>, V: Real>(
    size: spec_fn(V) -> real,
    power: spec_fn(real) -> real,
    tree: Seq<NodeState<V>>,
    root: int,
    children: Seq<(ActionId, NodeId)>,
    config: GumbelConfig<V>,
    width: int,
    policy: Seq<V>,
    i: int,
    j: int,
)
    requires
        unrounded_exp(size, power),
        lists(tree[root].children, children),
        forall|k: int| 0 <= k < children.len() ==> (#[trigger] children[k]).0 < width,
        width <= usize::MAX,
        improved::<G, V>(tree, root, children, config, width, policy),
        0 <= i < children.len(),
        0 <= j < children.len(),
    ensures
        ({
            let values = completed::<G, V>(tree, root, children, config);
            let x = size(tree[children[i].1 as int].logit) + size(values[i]);
            let y = size(tree[children[j].1 as int].logit) + size(values[j]);
            size(policy[children[i].0 as int]) * power(y) == size(policy[children[j].0 as int])
                * power(x)
        }),
        size(policy[children[i].0 as int]) > 0real,
        size(total(policy)) == 1real,
{
    let values = completed::<G, V>(tree, root, children, config);
    let scores = Seq::new(
        children.len(),
        |k: int| v_plus(tree[children[k].1 as int].logit, values[k]),
    );
    let actions = Seq::new(children.len(), |k: int| children[k].0);
    let all = choose|all: Seq<V>|
        scattered(actions, scores, width, v_lowest(), all) && policy == #[trigger] softmax(
            all,
            v_count(1),
        );
    assert(all[actions[i] as int] == scores[i]);
    assert(all[actions[j] as int] == scores[j]);
    let a = children[i].0 as int;
    let b = children[j].0 as int;
    let one = v_count::<V>(1);
    law_softmax_in_ratio(size, power, all, one, a, b);
    law_softmax_adds_up(size, all, one);
    let x = size(scores[i]);
    let y = size(scores[j]);
    assert(x / 1real == x && y / 1real == y);
}

/// An action that leads to no child has next to no probability in the improved policy: it
/// stands to that of a child as the exponential of `Real::lowest` to that of the child's sum.
/// The lower `Real::lowest` lies below that sum, the less it is.
pub proof fn law_improved_policy_spares_others<G: Scored<V>, V: Real>(
    size: spec_fn(V) -> real,
    power: spec_fn(real) -> real,
    tree: Seq<NodeState<V>>,
    root: int,
    children: Seq<(ActionId, NodeId)>,
    config: GumbelConfig<V>,
    width: int,
    policy: Seq<V>,
    i: int,
    other: ActionId,
)
    requires
        unrounded_exp(size, power),
        lists(tree[root].children, children),
        forall|k: int| 0 <= k < children.len() ==> (#[trigger] children[k]).0 < width,
        width <= usize::MAX,
        improved::<G, V>(tree, root, children, config, width, policy),
        0 <= i < children.len(),
        other < width,
        !tree[root].children.contains_key(other),
    ensures
        ({
            let values = completed::<G, V>(tree, root, children, config);
            let x = size(tree[children[i].1 as int].logit) + size(values[i]);
            &&& size(policy[other as int]) * power(x) == size(policy[children[i].0 as int]) * power(
                size(v_lowest()),
            )
            &&& size(v_lowest()) < x ==> size(policy[other as int]) < size(
                policy[children[i].0 as int],
            )
        }),
{
    let values = completed::<G, V>(tree, root, children, config);
    let scores = Seq::new(
        children.len(),
        |k: int| v_plus(tree[children[k].1 as int].logit, values[k]),
    );
    let actions = Seq::new(children.len(), |k: int| children[k].0);
    let all = choose|all: Seq<V>|
        scattered(actions, scores, width, v_lowest(), all) && policy == #[trigger] softmax(
            all,
            v_count(1),
        );
    assert(all[actions[i] as int] == scores[i]);
    if actions.contains(other) {
        let k = choose|k: int| 0 <= k < actions.len() && actions[k] == other;
        assert(tree[root].children.contains_key(children[k].0));
    }
    assert(!actions.contains((other as int) as usize));
    assert(all[other as int] == v_lowest::<V>());
    let a = children[i].0 as int;
    let one = v_count::<V>(1);
    law_softmax_in_ratio(size, power, all, one, other as int, a);
    law_softmax_in_ratio(size, power, all, one, a, other as int);
    let x = size(scores[i]);
    let y = size(v_lowest::<V>());
    assert(x / 1real == x && y / 1real == y);
    if y < x {
        lemma_power_grows(power, y, x);
        let p = size(policy[a]);
        let q = size(policy[other as int]);
        let e = power(x);
        let f = power(y);
        if p <= q {
            lemma_cancel(p, q, e);
            lemma_cancel(f, e, p);
            lemma_rearrange(p, e, 1real);
            lemma_rearrange(p, f, 1real);
        }
    }
}

/// Where two actions have the same completed value, the improved policy prefers one to the
/// other exactly as the evaluator does: its probabilities stand in the ratio of those that the
/// evaluator's numbers give.
pub proof fn law_improved_policy_keeps_preferences<G: Scored<V>, V: Real>(
    size: spec_fn(V) -> real,
    power: spec_fn(real) -> real,
    tree: Seq<NodeState<V>>,
    root: int,
    children: Seq<(ActionId, NodeId)>,
    config: GumbelConfig<V>,
    width: int,
    policy: Seq<V>,
    i: int,
    j: int,
)
    requires
        unrounded_exp(size, power),
        lists(tree[root].children, children),
        forall|k: int| 0 <= k < children.len() ==> (#[trigger] children[k]).0 < width,
        width <= usize::MAX,
        improved::<G, V>(tree, root, children, config, width, policy),
        0 <= i < children.len(),
        0 <= j < children.len(),
        size(completed::<G, V>(tree, root, children, config)[i]) == size(
            completed::<G, V>(tree, root, children, config)[j],
        ),
    ensures
        ({
            let logits = Seq::new(children.len(), |k: int| tree[children[k].1 as int].logit);
            size(policy[children[i].0 as int]) * size(shares_of(logits)[j]) == size(
                policy[children[j].0 as int],
            ) * size(shares_of(logits)[i])
        }),
{
    let logits = Seq::new(children.len(), |k: int| tree[children[k].1 as int].logit);
    let values = completed::<G, V>(tree, root, children, config);
    law_improved_policy_in_ratio::<G, V>(
        size,
        power,
        tree,
        root,
        children,
        config,
        width,
        policy,
        i,
        j,
    );
    law_shares_in_ratio(size, power, logits, i, j);
    let c = size(values[i]);
    let x = size(logits[i]);
    let y = size(logits[j]);
    lemma_power_of_sum(power, x, c);
    lemma_power_of_sum(power, y, c);
    lemma_power_of_sum(power, c, 0real);
    let p = size(policy[children[i].0 as int]);
    let q = size(policy[children[j].0 as int]);
    let s = size(shares_of(logits)[i]);
    let t = size(shares_of(logits)[j]);
    let e = power(x);
    let f = power(y);
    let z = power(c);
    lemma_rearrange(p, f, z);
    lemma_rearrange(q, e, z);
    lemma_cancel(p * f, q * e, z);
    lemma_rearrange(p, t, e);
    lemma_rearrange(p, s, f);
    lemma_rearrange(q, s, e);
    lemma_power_of_sum(power, x, 0real);
    lemma_cancel(p * t, q * s, e);
}

/// An action whose completed value is larger, and whose number of the evaluator is no smaller,
/// is more probable in the improved policy.
pub proof fn law_improved_policy_grows_with_value<G: Scored<V>, V: Real>(
    size: spec_fn(V) -> real,
    power: spec_fn(real) -> real,
    tree: Seq<NodeState<V>>,
    root: int,
    children: Seq<(ActionId, NodeId)>,
    config: GumbelConfig<V>,
    width: int,
    policy: Seq<V>,
    i: int,
    j: int,
)
    requires
        unrounded_exp(size, power),
        lists(tree[root].children, children),
        forall|k: int| 0 <= k < children.len() ==> (#[trigger] children[k]).0 < width,
        width <= usize::MAX,
        improved::<G, V>(tree, root, children, config, width, policy),
        0 <= i < children.len(),
        0 <= j < children.len(),
        size(tree[children[i].1 as int].logit) <= size(tree[children[j].1 as int].logit),
        size(completed::<G, V>(tree, root, children, config)[i]) < size(
            completed::<G, V>(tree, root, children, config)[j],
        ),
    ensures
        size(policy[children[i].0 as int]) < size(policy[children[j].0 as int]),
{
    let values = completed::<G, V>(tree, root, children, config);
    law_improved_policy_in_ratio::<G, V>(
        size,
        power,
        tree,
        root,
        children,
        config,
        width,
        policy,
        i,
        j,
    );
    let x = size(tree[children[i].1 as int].logit) + size(values[i]);
    let y = size(tree[children[j].1 as int].logit) + size(values[j]);
    lemma_power_grows(power, x, y);
    let p = size(policy[children[i].0 as int]);
    let q = size(policy[children[j].0 as int]);
    let e = power(x);
    let f = power(y);
    if q <= p {
        lemma_cancel(q, p, e);
        lemma_cancel(e, f, p);
        lemma_rearrange(p, e, 1real);
        lemma_rearrange(p, f, 1real);
    }
}

/// Noise that is mixed into a probability moves it towards the noise by the share of the noise.
pub proof fn law_noise_moves_by_share<V: Real>(
    size: spec_fn(V) -> real,
    prior: V,
    noise: V,
    share: V,
)
    requires
        unrounded_order(size),
    ensures
        size(noisy(prior, noise, share)) - size(prior) == size(share) * (size(noise) - size(
            prior,
        )),
{
    let p = size(prior);
    let n = size(noise);
    let e = size(share);
    assert(p * (1real - e) + n * e - p == e * (n - p)) by (nonlinear_arith);
}

/// What the entry `n - 1` adds to the surprise: its first probability times the logarithm `x`
/// of how much larger that is than the second one, which counts as no less than `Real::tiny`.
pub proof fn law_surprise_weighs_by_prior<V: Real>(
    size: spec_fn(V) -> real,
    power: spec_fn(real) -> real,
    priors: Seq<V>,
    posteriors: Seq<V>,
    n: int,
    x: real,
)
    requires
        unrounded_exp(size, power),
        negligible_is_tiny(size),
        0 < n <= priors.len(),
        n <= posteriors.len(),
        size(priors[n - 1]) > size(v_tiny()),
        size(posteriors[n - 1]) >= size(v_tiny()) ==> power(x) * size(posteriors[n - 1]) == size(
            priors[n - 1],
        ),
        size(posteriors[n - 1]) < size(v_tiny()) ==> power(x) * size(v_tiny()) == size(
            priors[n - 1],
        ),
    ensures
        size(surprise(priors, posteriors, n)) - size(surprise(priors, posteriors, n - 1)) == size(
            priors[n - 1],
        ) * x,
{
    let p = v_larger(priors[n - 1], v_tiny());
    let q = v_larger(posteriors[n - 1], v_tiny());
    let a = size(p);
    let b = size(q);
    assert(a == size(priors[n - 1]));
    assert(b > 0real && power(x) * b == a);
    let z = power(x);
    assert(a / b == z) by (nonlinear_arith)
        requires
            z * b == a,
            b > 0real,
    ;
    lemma_power_of_sum(power, x, 0real);
    let ratio = v_over(p, q);
    assert(size(ratio) == z);
    assert(power(size(v_ln(ratio))) == z);
    lemma_same_power(power, size(v_ln(ratio)), x);
}

/// An entry with a negligible first probability adds nothing to the surprise.
pub proof fn law_surprise_skips_negligible<V: Real>(
    size: spec_fn(V) -> real,
    priors: Seq<V>,
    posteriors: Seq<V>,
    n: int,
)
    requires
        unrounded_order(size),
        negligible_is_tiny(size),
        0 < n <= priors.len(),
        size(priors[n - 1]) <= size(v_tiny()),
    ensures
        size(surprise(priors, posteriors, n)) == size(surprise(priors, posteriors, n - 1)),
{
    assert(size(v_larger(priors[n - 1], v_tiny())) == size(v_tiny()));
}

proof fn lemma_surprise_bound<V: Real>(
    size: spec_fn(V) -> real,
    power: spec_fn(real) -> real,
    priors: Seq<V>,
    posteriors: Seq<V>,
    n: int,
)
    requires
        unrounded_exp(size, power),
        negligible_is_tiny(size),
        0 <= n <= priors.len(),
        n <= posteriors.len(),
        forall|k: int| 0 <= k < n ==> size(#[trigger] priors[k]) > size(v_tiny()),
        forall|k: int| 0 <= k < n ==> size(#[trigger] posteriors[k]) >= size(v_tiny()),
    ensures
        size(surprise(priors, posteriors, n)) >= size(total(priors.take(n))) - size(
            total(posteriors.take(n)),
        ),
    decreases n,
{
    if n == 0 {
        assert(priors.take(0) =~= Seq::empty());
        assert(posteriors.take(0) =~= Seq::empty());
    } else {
        lemma_surprise_bound(size, power, priors, posteriors, n - 1);
        assert(priors.take(n).drop_last() =~= priors.take(n - 1));
        assert(posteriors.take(n).drop_last() =~= posteriors.take(n - 1));
        assert(size(priors[n - 1]) > size(v_tiny()));
        assert(size(posteriors[n - 1]) >= size(v_tiny()));
        let p = size(priors[n - 1]);
        let q = size(posteriors[n - 1]);
        let ratio = v_over(priors[n - 1], posteriors[n - 1]);
        assert(size(ratio) == p / q);
        assert(p / q > 0real && p / q * q == p) by (nonlinear_arith)
            requires
                p > 0real,
                q > 0real,
        ;
        let x = size(v_ln(ratio));
        assert(power(x) == size(ratio));
        law_surprise_weighs_by_prior(size, power, priors, posteriors, n, x);
        lemma_power_of_difference(power, 0real, x);
        lemma_power_of_sum(power, 0real - x, 0real);
        lemma_power_of_sum(power, 0real, 0real);
        assert(power(0real) == 1real) by {
            let z = power(0real);
            assert(0real + 0real == 0real);
            assert(z == 1real) by (nonlinear_arith)
                requires
                    z == z * z,
                    z > 0real,
            ;
        }
        let y = power(0real - x);
        let z = power(x);
        lemma_rearrange(y, z, q);
        assert(y * p == q);
        lemma_cancel(1real - x, y, p);
        lemma_distribute(1real, x, p);
        assert(p * x >= p - q);
    }
}

/// The surprise of one distribution at another is not negative: the first adds up to at least
/// what the second adds up to, and no entry is too small to count.
pub proof fn law_surprise_is_not_negative<V: Real>(
    size: spec_fn(V) -> real,
    power: spec_fn(real) -> real,
    priors: Seq<V>,
    posteriors: Seq<V>,
)
    requires
        unrounded_exp(size, power),
        negligible_is_tiny(size),
        posteriors.len() == priors.len(),
        forall|k: int| 0 <= k < priors.len() ==> size(#[trigger] priors[k]) > size(v_tiny()),
        forall|k: int|
            0 <= k < posteriors.len() ==> size(#[trigger] posteriors[k]) >= size(v_tiny()),
        size(total(posteriors)) <= size(total(priors)),
    ensures
        size(surprise(priors, posteriors, priors.len() as int)) >= 0real,
{
    let n = priors.len() as int;
    lemma_surprise_bound(size, power, priors, posteriors, n);
    assert(priors.take(n) =~= priors);
    assert(posteriors.take(n) =~= posteriors);
}

/// A distribution is not surprised by itself.
pub proof fn law_no_surprise_at_itself<V: Real>(
    size: spec_fn(V) -> real,
    power: spec_fn(real) -> real,
    priors: Seq<V>,
    n: int,
)
    requires
        unrounded_exp(size, power),
        negligible_is_tiny(size),
        0 <= n <= priors.len(),
    ensures
        size(surprise(priors, priors, n)) == 0real,
    decreases n,
{
    if n > 0 {
        law_no_surprise_at_itself(size, power, priors, n - 1);
        if size(priors[n - 1]) <= size(v_tiny()) {
            law_surprise_skips_negligible(size, priors, priors, n);
        } else {
            lemma_power_of_sum(power, 0real, 0real);
            let z = power(0real);
            assert(0real + 0real == 0real);
            assert(z == 1real) by (nonlinear_arith)
                requires
                    z == z * z,
                    z > 0real,
            ;
            law_surprise_weighs_by_prior(size, power, priors, priors, n, 0real);
        }
    }
}

} // verus!
