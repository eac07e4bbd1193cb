//! What children are worth, and the policies that follow from that.

use vstd::prelude::*;
use crate::mcts::config::GumbelConfig;
use crate::mcts::game::{ActionId, Scored};
use crate::mcts::node::{
    hangs, is_tree, law_top_is_busiest, leads_to, picks, shares_visits, visits_of, NodeId,
    NodeState, MCTS,
};
use crate::mcts::select::lesser;
use crate::number::{
    exact, greatest, greatest_of, least, least_of, sum, total, unrounded, v_count, v_larger,
    v_least_spread, v_mean, v_minus, v_negligible, v_over, v_plus, v_times, v_zero, Real,
};

verus! {

/// The sum of counts.
pub open spec fn count_total(counts: Seq<usize>) -> int
    decreases counts.len(),
{
    if counts.len() == 0 {
        0
    } else {
        count_total(counts.drop_last()) + counts.last()
    }
}

/// The largest count, 0 when there is none.
pub open spec fn count_greatest(counts: Seq<usize>) -> int
    decreases counts.len(),
{
    if counts.len() == 0 {
        0
    } else {
        let before = count_greatest(counts.drop_last());
        if counts.last() > before {
            counts.last() as int
        } else {
            before
        }
    }
}

proof fn lemma_count_total_grows(counts: Seq<usize>, i: int)
    requires
        0 <= i <= counts.len(),
    ensures
        0 <= count_total(counts.take(i)) <= count_total(counts),
    decreases counts.len(),
{
    if i == counts.len() {
        assert(counts.take(i) =~= counts);
        if counts.len() > 0 {
            lemma_count_total_grows(counts.drop_last(), 0);
        }
    } else {
        lemma_count_total_grows(counts.drop_last(), i);
        assert(counts.drop_last().take(i) =~= counts.take(i));
    }
}

pub(crate) fn sum_counts(counts: &Vec<usize>) -> (s: usize)
    requires
        count_total(counts@) <= usize::MAX,
    ensures
        s == count_total(counts@),
{
    let mut s: usize = 0;
    assert(counts@.take(0) =~= Seq::empty());
    for i in 0..counts.len()
        invariant
            count_total(counts@) <= usize::MAX,
            s == count_total(counts@.take(i as int)),
    {
        proof {
            lemma_count_total_grows(counts@, i + 1);
            assert(counts@.take(i + 1).drop_last() =~= counts@.take(i as int));
        }
        s = s + counts[i];
    }
    assert(counts@.take(counts@.len() as int) =~= counts@);
    s
}

fn greatest_count(counts: &Vec<usize>) -> (most: usize)
    ensures
        most == count_greatest(counts@),
{
    let mut most: usize = 0;
    assert(counts@.take(0) =~= Seq::empty());
    for i in 0..counts.len()
        invariant
            most == count_greatest(counts@.take(i as int)),
    {
        assert(counts@.take(i + 1).drop_last() =~= counts@.take(i as int));
        if counts[i] > most {
            most = counts[i];
        }
    }
    assert(counts@.take(counts@.len() as int) =~= counts@);
    most
}

/// The numbers at the places with a count above 0.
pub open spec fn visited<V>(items: Seq<V>, counts: Seq<usize>) -> Seq<V>
    decreases counts.len(),
{
    if counts.len() == 0 {
        Seq::empty()
    } else {
        let before = visited(items, counts.drop_last());
        if counts.last() > 0 {
            before.push(items[counts.len() - 1])
        } else {
            before
        }
    }
}

fn visited_of<V: Copy>(items: &Vec<V>, counts: &Vec<usize>, n: usize) -> (kept: Vec<V>)
    requires
        n <= items@.len(),
        n <= counts@.len(),
    ensures
        kept@ == visited(items@, counts@.take(n as int)),
{
    let mut kept: Vec<V> = Vec::new();
    assert(counts@.take(0) =~= Seq::empty());
    for i in 0..n
        invariant
            n <= items@.len(),
            n <= counts@.len(),
            kept@ == visited(items@, counts@.take(i as int)),
    {
        assert(counts@.take(i + 1).drop_last() =~= counts@.take(i as int));
        if counts[i] > 0 {
            kept.push(items[i]);
        }
    }
    kept
}

/// The values, each weighed by its share of the weight `mass`.
pub open spec fn shares<V: Real>(values: Seq<V>, weights: Seq<V>, mass: V) -> Seq<V> {
    Seq::new(values.len(), |i: int| v_over(v_times(values[i], weights[i]), mass))
}

/// The value of a child that was not visited: the node's own value, averaged with those of
/// the visited children, which are weighed by their probabilities and count as often as
/// they were visited together. When no child was visited, or those that were have no
/// probability to speak of, it is the node's own value. A list that is too short ends the
/// others.
pub open spec fn mixed_value<V: Real>(
    raw_value: V,
    values: Seq<V>,
    counts: Seq<usize>,
    priors: Seq<V>,
) -> V {
    let visits = count_total(counts);
    let weighed = counts.take(lesser(priors.len() as int, counts.len() as int));
    let known = counts.take(lesser(values.len() as int, weighed.len() as int));
    let mass = total(visited(priors, weighed));
    if visits == 0 || v_negligible(mass) {
        raw_value
    } else {
        let mean = total(shares(visited(values, known), visited(priors, known), mass));
        v_over(
            v_plus(raw_value, v_times(v_count(visits as usize), mean)),
            v_plus(v_count(1), v_count(visits as usize)),
        )
    }
}

fn shorter(a: usize, b: usize) -> (n: usize)
    ensures
        n == lesser(a as int, b as int),
{
    if a <= b {
        a
    } else {
        b
    }
}

/// The value of a child that was not visited: see `mixed_value`.
pub fn compute_mixed_value<V: Real>(
    raw_value: V,
    qvalues: &Vec<V>,
    visit_counts: &Vec<usize>,
    priors: &Vec<V>,
) -> (value: V)
    requires
        exact::<V>(),
        count_total(visit_counts@) <= usize::MAX,
    ensures
        value == mixed_value(raw_value, qvalues@, visit_counts@, priors@),
{
    let sum_visits: usize = sum_counts(visit_counts);
    if sum_visits == 0 {
        return raw_value;
    }
    let weighed: usize = shorter(priors.len(), visit_counts.len());
    let known: usize = shorter(qvalues.len(), weighed);
    let mass: V = sum(&visited_of(priors, visit_counts, weighed));
    if mass.negligible() {
        return raw_value;
    }
    let weights = visited_of(priors, visit_counts, known);
    let values = visited_of(qvalues, visit_counts, known);
    proof {
        lemma_visited_len(qvalues@, priors@, visit_counts@.take(known as int));
        assert(visit_counts@.take(weighed as int).take(known as int) =~= visit_counts@.take(
            known as int,
        ));
    }
    let mut terms: Vec<V> = Vec::new();
    for i in 0..values.len()
        invariant
            exact::<V>(),
            values@.len() == weights@.len(),
            terms@ == shares(values@, weights@, mass).take(i as int),
    {
        terms.push(values[i].times(weights[i]).over(mass));
        assert(terms@ =~= shares(values@, weights@, mass).take(i + 1));
    }
    assert(terms@ =~= shares(values@, weights@, mass));
    let mean: V = sum(&terms);
    let many: V = V::count(sum_visits);
    let one: V = V::count(1);
    raw_value.plus(many.times(mean)).over(one.plus(many))
}

proof fn lemma_visited_len<V>(a: Seq<V>, b: Seq<V>, counts: Seq<usize>)
    ensures
        visited(a, counts).len() == visited(b, counts).len(),
    decreases counts.len(),
{
    if counts.len() > 0 {
        lemma_visited_len(a, b, counts.drop_last());
    }
}

/// A node whose children were not visited has its own value as the mixed value.
pub proof fn law_mixed_value_without_visits<V: Real>(
    raw_value: V,
    values: Seq<V>,
    counts: Seq<usize>,
    priors: Seq<V>,
)
    requires
        forall|i: int| 0 <= i < counts.len() ==> #[trigger] counts[i] == 0,
    ensures
        mixed_value(raw_value, values, counts, priors) == raw_value,
{
    lemma_no_counts(counts);
}

proof fn lemma_no_counts(counts: Seq<usize>)
    requires
        forall|i: int| 0 <= i < counts.len() ==> #[trigger] counts[i] == 0,
    ensures
        count_total(counts) == 0,
    decreases counts.len(),
{
    if counts.len() > 0 {
        assert(counts[counts.len() - 1] == 0);
        assert forall|i: int| 0 <= i < counts.drop_last().len() implies #[trigger] counts.drop_last()[i]
            == 0 by {
            assert(counts[i] == 0);
        }
        lemma_no_counts(counts.drop_last());
    }
}

/// What a child that was not visited is worth, and how probable it is, does not enter the
/// mixed value.
pub proof fn law_mixed_value_ignores_unvisited<V: Real>(
    raw_value: V,
    values: Seq<V>,
    other_values: Seq<V>,
    counts: Seq<usize>,
    priors: Seq<V>,
    other_priors: Seq<V>,
)
    requires
        other_values.len() == values.len(),
        other_priors.len() == priors.len(),
        forall|i: int|
            0 <= i < counts.len() && #[trigger] counts[i] > 0 ==> values[i] == other_values[i]
                && priors[i] == other_priors[i],
    ensures
        mixed_value(raw_value, values, counts, priors) == mixed_value(
            raw_value,
            other_values,
            counts,
            other_priors,
        ),
{
    let weighed = lesser(priors.len() as int, counts.len() as int);
    let known = lesser(values.len() as int, weighed);
    lemma_visited_same(priors, other_priors, counts.take(weighed));
    lemma_visited_same(priors, other_priors, counts.take(known));
    lemma_visited_same(values, other_values, counts.take(known));
}

proof fn lemma_visited_weights<V: Real>(
    size: spec_fn(V) -> real,
    values: Seq<V>,
    priors: Seq<V>,
    counts: Seq<usize>,
    mass: V,
    low: real,
    high: real,
)
    requires
        unrounded(size),
        size(mass) > 0real,
        values.len() >= counts.len(),
        priors.len() >= counts.len(),
        forall|i: int|
            0 <= i < counts.len() && #[trigger] counts[i] > 0 ==> size(priors[i]) >= 0real && low
                <= size(values[i]) <= high,
    ensures
        ({
            let weights = visited(priors, counts);
            let mean = size(total(shares(visited(values, counts), weights, mass)));
            let part = size(total(weights)) / size(mass);
            &&& part >= 0real
            &&& low * part <= mean <= high * part
        }),
    decreases counts.len(),
{
    let weights = visited(priors, counts);
    let known = visited(values, counts);
    let m = size(mass);
    lemma_visited_len(values, priors, counts);
    if counts.len() == 0 {
        assert(shares(known, weights, mass) =~= Seq::empty());
        assert(0real / m == 0real) by (nonlinear_arith)
            requires
                m > 0real,
        ;
        assert(low * 0real == 0real && high * 0real == 0real) by (nonlinear_arith);
    } else {
        let rest = counts.drop_last();
        let last = counts.len() - 1;
        assert forall|i: int| 0 <= i < rest.len() && #[trigger] rest[i] > 0 implies size(priors[i])
            >= 0real && low <= size(values[i]) <= high by {
            assert(counts[i] > 0);
        }
        lemma_visited_weights(size, values, priors, rest, mass, low, high);
        if counts.last() > 0 {
            assert(counts[last] > 0);
            let fewer = visited(priors, rest);
            let before = visited(values, rest);
            lemma_visited_len(values, priors, rest);
            assert(weights.drop_last() =~= fewer);
            assert(shares(known, weights, mass).drop_last() =~= shares(before, fewer, mass));
            assert(shares(known, weights, mass).last() == v_over(
                v_times(values[last], priors[last]),
                mass,
            ));
            let v = size(values[last]);
            let p = size(priors[last]);
            let w = size(total(fewer));
            let mean = size(total(shares(before, fewer, mass)));
            assert(size(total(weights)) == w + p);
            assert(size(total(shares(known, weights, mass))) == mean + v * p / m);
            assert((w + p) / m == w / m + p / m) by (nonlinear_arith)
                requires
                    m > 0real,
            ;
            assert(p / m >= 0real) by (nonlinear_arith)
                requires
                    m > 0real,
                    p >= 0real,
            ;
            assert(v * p / m == v * (p / m)) by (nonlinear_arith)
                requires
                    m > 0real,
            ;
            let a = w / m;
            let b = p / m;
            assert(low * (a + b) == low * a + low * b && low * b <= v * b) by (nonlinear_arith)
                requires
                    low <= v,
                    b >= 0real,
            ;
            assert(high * (a + b) == high * a + high * b && v * b <= high * b)
                by (nonlinear_arith)
                requires
                    v <= high,
                    b >= 0real,
            ;
        }
    }
}

/// The mixed value lies between the least and the greatest of the node's own value and the
/// values of the visited children, for probabilities that are not negative and numbers that
/// are not rounded: bounds of these are bounds of the mixed value.
pub proof fn law_mixed_value_lies_between<V: Real>(
    size: spec_fn(V) -> real,
    raw_value: V,
    values: Seq<V>,
    counts: Seq<usize>,
    priors: Seq<V>,
    low: real,
    high: real,
)
    requires
        unrounded(size),
        values.len() == counts.len(),
        priors.len() == counts.len(),
        count_total(counts) <= usize::MAX,
        forall|i: int| 0 <= i < priors.len() ==> size(#[trigger] priors[i]) >= 0real,
        low <= size(raw_value) <= high,
        forall|i: int|
            0 <= i < counts.len() && #[trigger] counts[i] > 0 ==> low <= size(values[i]) <= high,
    ensures
        low <= size(mixed_value(raw_value, values, counts, priors)) <= high,
{
    assert(counts.take(counts.len() as int) =~= counts);
    let visits = count_total(counts);
    let weights = visited(priors, counts);
    let mass = total(weights);
    lemma_count_total_grows(counts, 0);
    if visits != 0 && !v_negligible(mass) {
        assert forall|i: int| 0 <= i < counts.len() && #[trigger] counts[i] > 0 implies size(
            priors[i],
        ) >= 0real && low <= size(values[i]) <= high by {}
        lemma_visited_weights(size, values, priors, counts, mass, low, high);
        let mean = total(shares(visited(values, counts), weights, mass));
        let m = size(mass);
        let q = size(mean);
        let r = size(raw_value);
        let n = visits as real;
        assert(m / m == 1real) by (nonlinear_arith)
            requires
                m > 0real,
        ;
        assert(low * (m / m) == low && high * (m / m) == high) by (nonlinear_arith)
            requires
                m / m == 1real,
        ;
        let many = v_count::<V>(visits as usize);
        assert(size(many) == n);
        assert(size(v_plus(v_count(1), many)) == 1real + n);
        assert(size(v_plus(raw_value, v_times(many, mean))) == r + n * q);
        assert(low <= (r + n * q) / (1real + n) <= high) by (nonlinear_arith)
            requires
                n >= 0real,
                low <= r <= high,
                low <= q <= high,
        ;
    }
}

proof fn lemma_visited_same<V>(a: Seq<V>, b: Seq<V>, counts: Seq<usize>)
    requires
        forall|i: int| 0 <= i < counts.len() && #[trigger] counts[i] > 0 ==> a[i] == b[i],
    ensures
        visited(a, counts) == visited(b, counts),
    decreases counts.len(),
{
    if counts.len() > 0 {
        let rest = counts.drop_last();
        assert forall|i: int| 0 <= i < rest.len() && #[trigger] rest[i] > 0 implies a[i] == b[i] by {
            assert(counts[i] > 0);
        }
        lemma_visited_same(a, b, rest);
        if counts.last() > 0 {
            assert(counts[counts.len() - 1] > 0);
        }
    }
}

/// The value of a node as the player to move at its parent sees it.
pub open spec fn seen_from_parent<G: Scored<V>, V: Real>(node: NodeState<V>) -> V {
    G::flipped(
        if node.visits > 0 {
            v_mean(node.total, node.visits as usize)
        } else {
            v_zero()
        },
    )
}

/// The values of the children, as the player to move at their parent sees them.
pub open spec fn child_values<G: Scored<V>, V: Real>(
    tree: Seq<NodeState<V>>,
    children: Seq<(ActionId, NodeId)>,
) -> Seq<V> {
    Seq::new(children.len(), |i: int| seen_from_parent::<G, V>(tree[children[i].1 as int]))
}

/// The probabilities of the children.
pub open spec fn child_priors<V>(
    tree: Seq<NodeState<V>>,
    children: Seq<(ActionId, NodeId)>,
) -> Seq<V> {
    Seq::new(children.len(), |i: int| tree[children[i].1 as int].prior)
}

/// The visit counts of the children.
pub open spec fn child_counts<V>(
    tree: Seq<NodeState<V>>,
    children: Seq<(ActionId, NodeId)>,
) -> Seq<usize> {
    Seq::new(children.len(), |i: int| tree[children[i].1 as int].visits as usize)
}

/// The values of the children with the mixed value for those that were not visited.
pub open spec fn filled_in<V: Real>(
    raw_value: V,
    values: Seq<V>,
    counts: Seq<usize>,
    priors: Seq<V>,
) -> Seq<V> {
    Seq::new(
        values.len(),
        |i: int|
            if counts[i] > 0 {
                values[i]
            } else {
                mixed_value(raw_value, values, counts, priors)
            },
    )
}

/// Values moved and stretched so that they run from 0 to `scale`.
pub open spec fn stretched<V: Real>(values: Seq<V>, scale: V) -> Seq<V> {
    let low = least(values);
    let spread = v_larger(v_minus(greatest(values), low), v_least_spread());
    Seq::new(values.len(), |i: int| v_over(v_times(scale, v_minus(values[i], low)), spread))
}

/// The completed values of the children of `parent`: those of visited children, the mixed
/// value for the others, stretched to a scale that grows with the most visited child.
pub open spec fn completed<G: Scored<V>, V: Real>(
    tree: Seq<NodeState<V>>,
    parent: int,
    children: Seq<(ActionId, NodeId)>,
    config: GumbelConfig<V>,
) -> Seq<V> {
    let counts = child_counts(tree, children);
    let filled = filled_in(
        tree[parent].raw->0,
        child_values::<G, V>(tree, children),
        counts,
        child_priors(tree, children),
    );
    let scale = v_times(
        v_count((config.max_visit_init + count_greatest(counts)) as usize),
        config.value_scale,
    );
    stretched(filled, scale)
}

/// The children stand in the tree, and their visits can be added up.
pub open spec fn countable<V>(
    tree: Seq<NodeState<V>>,
    children: Seq<(ActionId, NodeId)>,
    config: GumbelConfig<V>,
) -> bool {
    &&& forall|i: int| 0 <= i < children.len() ==> (#[trigger] children[i]).1 < tree.len()
    &&& count_total(child_counts(tree, children)) < usize::MAX
    &&& config.max_visit_init + count_greatest(child_counts(tree, children)) <= usize::MAX
}

proof fn lemma_greatest_bounded(counts: Seq<usize>, bound: int)
    requires
        bound >= 0,
        forall|i: int| 0 <= i < counts.len() ==> #[trigger] counts[i] <= bound,
    ensures
        0 <= count_greatest(counts) <= bound,
    decreases counts.len(),
{
    if counts.len() > 0 {
        let front = counts.drop_last();
        assert forall|i: int| 0 <= i < front.len() implies #[trigger] front[i] <= bound by {
            assert(front[i] == counts[i]);
        }
        lemma_greatest_bounded(front, bound);
        assert(counts.last() == counts[counts.len() - 1]);
    }
}

proof fn lemma_counts_are_visits<V>(
    tree: Seq<NodeState<V>>,
    children: Seq<(ActionId, NodeId)>,
)
    requires
        forall|i: int|
            0 <= i < children.len() ==> 0 <= tree[(#[trigger] children[i]).1 as int].visits
                <= usize::MAX,
    ensures
        count_total(child_counts(tree, children)) == visits_of(tree, children),
    decreases children.len(),
{
    if children.len() > 0 {
        let front = children.drop_last();
        assert forall|i: int| 0 <= i < front.len() implies 0 <= tree[(
        #[trigger] front[i]).1 as int].visits <= usize::MAX by {
            assert(front[i] == children[i]);
        }
        lemma_counts_are_visits(tree, front);
        assert(child_counts(tree, children).drop_last() =~= child_counts(tree, front));
        assert(children.last() == children[children.len() - 1]);
    }
}

/// In a tree the visits of a node's children can be added up, as long as those of the node 0
/// leave room.
pub proof fn lemma_countable<V>(
    tree: Seq<NodeState<V>>,
    id: int,
    children: Seq<(ActionId, NodeId)>,
    config: GumbelConfig<V>,
)
    requires
        is_tree(tree),
        0 <= id < tree.len(),
        picks(tree[id].children, children),
        tree[0].visits < u32::MAX,
        config.max_visit_init + tree[0].visits <= usize::MAX,
    ensures
        countable(tree, children, config),
{
    assert forall|i: int| 0 <= i < children.len() implies (#[trigger] children[i]).1 < tree.len()
        && 0 <= tree[children[i].1 as int].visits <= tree[0].visits by {
        let c = children[i].1 as int;
        assert(leads_to(tree, id, children[i].0, c));
        assert(hangs(tree, c));
        law_top_is_busiest(tree, c);
    }
    lemma_counts_are_visits(tree, children);
    assert(shares_visits(tree, id));
    law_top_is_busiest(tree, id);
    let counts = child_counts(tree, children);
    assert forall|i: int| 0 <= i < counts.len() implies #[trigger] counts[i] <= tree[0].visits by {
        assert(children[i].1 < tree.len());
    }
    lemma_greatest_bounded(counts, tree[0].visits);
}

impl<V: Real> MCTS<V> {
    pub(crate) fn child_counts_of(&self, children: &Vec<(ActionId, NodeId)>) -> (counts: Vec<usize>)
        requires
            forall|i: int| 0 <= i < children@.len() ==> (#[trigger] children@[i]).1 < self@.len(),
        ensures
            counts@ == child_counts(self@, children@),
    {
        let mut counts: Vec<usize> = Vec::new();
        for i in 0..children.len()
            invariant
                forall|i: int|
                    0 <= i < children@.len() ==> (#[trigger] children@[i]).1 < self@.len(),
                counts@ == child_counts(self@, children@).take(i as int),
        {
            let id: NodeId = children[i].1;
            assert(self@[id as int] == self.arena@[id as int]@);
            counts.push(self.arena[id].visit_count as usize);
            assert(counts@ =~= child_counts(self@, children@).take(i + 1));
        }
        assert(counts@ =~= child_counts(self@, children@));
        counts
    }

    /// The completed values of the children of `parent_idx`: see `completed`.
    pub fn completed_q_values<G: Scored<V>>(
        &self,
        parent_idx: NodeId,
        children: &Vec<(ActionId, NodeId)>,
        config: &GumbelConfig<V>,
    ) -> (values: Vec<V>)
        requires
            exact::<V>(),
            parent_idx < self@.len(),
            self@[parent_idx as int].raw is Some,
            countable(self@, children@, *config),
        ensures
            values@ == completed::<G, V>(self@, parent_idx as int, children@, *config),
    {
        let visit_counts = self.child_counts_of(children);
        let mut qvalues: Vec<V> = Vec::new();
        let mut priors: Vec<V> = Vec::new();
        for i in 0..children.len()
            invariant
                exact::<V>(),
                forall|i: int|
                    0 <= i < children@.len() ==> (#[trigger] children@[i]).1 < self@.len(),
                qvalues@ == child_values::<G, V>(self@, children@).take(i as int),
                priors@ == child_priors(self@, children@).take(i as int),
        {
            let id: NodeId = children[i].1;
            assert(self@[id as int] == self.arena@[id as int]@);
            qvalues.push(G::flip_perspective(self.arena[id].q()));
            priors.push(self.arena[id].prior);
            assert(qvalues@ =~= child_values::<G, V>(self@, children@).take(i + 1));
            assert(priors@ =~= child_priors(self@, children@).take(i + 1));
        }
        assert(qvalues@ =~= child_values::<G, V>(self@, children@));
        assert(priors@ =~= child_priors(self@, children@));
        assert(self@[parent_idx as int] == self.arena@[parent_idx as int]@);
        let raw_value: V = match self.arena[parent_idx].raw_value {
            Some(raw) => raw,
            None => V::zero(),
        };
        let mixed: V = compute_mixed_value(raw_value, &qvalues, &visit_counts, &priors);
        let ghost filled = filled_in(raw_value, qvalues@, visit_counts@, priors@);
        let mut completed: Vec<V> = Vec::new();
        for i in 0..qvalues.len()
            invariant
                visit_counts@.len() == qvalues@.len(),
                mixed == mixed_value(raw_value, qvalues@, visit_counts@, priors@),
                filled == filled_in(raw_value, qvalues@, visit_counts@, priors@),
                completed@ == filled.take(i as int),
        {
            completed.push(
                if visit_counts[i] > 0 {
                    qvalues[i]
                } else {
                    mixed
                },
            );
            assert(completed@ =~= filled.take(i + 1));
        }
        assert(completed@ =~= filled);
        let max_q: V = greatest_of(&completed);
        let min_q: V = least_of(&completed);
        let gap: V = max_q.minus(min_q).larger(V::least_spread());
        let max_visit: usize = greatest_count(&visit_counts);
        let scale: V = V::count(config.max_visit_init + max_visit).times(config.value_scale);
        let mut values: Vec<V> = Vec::new();
        for i in 0..completed.len()
            invariant
                exact::<V>(),
                completed@ == filled,
                min_q == least(filled),
                gap == v_larger(v_minus(greatest(filled), least(filled)), v_least_spread()),
                values@ == stretched(filled, scale).take(i as int),
        {
            values.push(scale.times(completed[i].minus(min_q)).over(gap));
            assert(values@ =~= stretched(filled, scale).take(i + 1));
        }
        assert(values@ =~= stretched(filled, scale));
        values
    }
}

} // verus!
