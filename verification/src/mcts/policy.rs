//! Scores, probabilities and values that a search derives from its tree.

use vstd::prelude::*;
use crate::mcts::answer::{noise_mixed, same_answer};
use crate::mcts::config::GumbelConfig;
use crate::mcts::game::{ActionId, Scored};
use crate::mcts::node::{leads_to, lists, NodeId, NodeState, MCTS};
use crate::mcts::read::{sum_of, sum_visits, zero_vec, zeros};
use crate::mcts::value::{child_counts, completed, count_total, lemma_countable, sum_counts};
use crate::number::{
    exact, greatest, greatest_of, sum, total, unrounded, v_count, v_exp, v_is_zero, v_key, v_larger,
    v_ln, v_low, v_lowest, v_minus, v_negligible, v_over, v_plus, v_positive, v_times, v_tiny,
    v_zero, Real, Score,
};

verus! {

/// The noise for the child `i`, zero where there is none.
pub open spec fn noise_at<V: Score>(noises: Seq<V>, i: int) -> V {
    if i < noises.len() {
        noises[i]
    } else {
        v_zero()
    }
}

/// The keys of the root's children: noise, number of the evaluator and completed value added
/// up, but no less than `Real::low`.
pub open spec fn root_keys<V: Real>(
    tree: Seq<NodeState<V>>,
    children: Seq<(ActionId, NodeId)>,
    values: Seq<V>,
    noises: Seq<V>,
) -> Seq<i64> {
    Seq::new(
        children.len(),
        |i: int|
            v_key(
                v_larger(
                    v_plus(
                        v_plus(noise_at(noises, i), tree[children[i].1 as int].logit),
                        values[i],
                    ),
                    v_low(),
                ),
            ),
    )
}

/// The keys of an inner node's children: probability and completed value added up, less the
/// child's share of the visits.
pub open spec fn interior_keys<V: Real>(
    tree: Seq<NodeState<V>>,
    children: Seq<(ActionId, NodeId)>,
    values: Seq<V>,
) -> Seq<i64> {
    let counts = child_counts(tree, children);
    Seq::new(
        children.len(),
        |i: int|
            v_key(
                v_minus(
                    v_plus(tree[children[i].1 as int].prior, values[i]),
                    v_over(v_count(counts[i]), v_count((1 + count_total(counts)) as usize)),
                ),
            ),
    )
}

impl<V: Real> MCTS<V> {
    /// The keys of the root's children: see `root_keys`.
    pub fn root_keys_of(
        &self,
        children: &Vec<(ActionId, NodeId)>,
        values: &Vec<V>,
        noises: &Vec<V>,
    ) -> (keys: Vec<i64>)
        requires
            exact::<V>(),
            values@.len() == children@.len(),
            forall|i: int| 0 <= i < children@.len() ==> (#[trigger] children@[i]).1 < self@.len(),
        ensures
            keys@ == root_keys(self@, children@, values@, noises@),
    {
        let mut keys: Vec<i64> = Vec::new();
        for i in 0..children.len()
            invariant
                exact::<V>(),
                values@.len() == children@.len(),
                forall|i: int|
                    0 <= i < children@.len() ==> (#[trigger] children@[i]).1 < self@.len(),
                keys@ == root_keys(self@, children@, values@, noises@).take(i as int),
        {
            let id: NodeId = children[i].1;
            assert(self@[id as int] == self.arena@[id as int]@);
            let noise: V = if i < noises.len() {
                noises[i]
            } else {
                V::zero()
            };
            let score: V = noise.plus(self.arena[id].policy_logit).plus(values[i]);
            keys.push(score.larger(V::low()).key());
            assert(keys@ =~= root_keys(self@, children@, values@, noises@).take(i + 1));
        }
        assert(keys@ =~= root_keys(self@, children@, values@, noises@));
        keys
    }

    /// The keys of an inner node's children: see `interior_keys`.
    pub fn interior_keys_of(
        &self,
        children: &Vec<(ActionId, NodeId)>,
        values: &Vec<V>,
    ) -> (keys: Vec<i64>)
        requires
            exact::<V>(),
            values@.len() == children@.len(),
            forall|i: int| 0 <= i < children@.len() ==> (#[trigger] children@[i]).1 < self@.len(),
            count_total(child_counts(self@, children@)) < usize::MAX,
        ensures
            keys@ == interior_keys(self@, children@, values@),
    {
        let counts = self.child_counts_of(children);
        let sum_visits: usize = sum_counts(&counts);
        let mut keys: Vec<i64> = Vec::new();
        for i in 0..children.len()
            invariant
                exact::<V>(),
                values@.len() == children@.len(),
                counts@ == child_counts(self@, children@),
                sum_visits == count_total(counts@),
                sum_visits < usize::MAX,
                forall|i: int|
                    0 <= i < children@.len() ==> (#[trigger] children@[i]).1 < self@.len(),
                keys@ == interior_keys(self@, children@, values@).take(i as int),
        {
            let id: NodeId = children[i].1;
            assert(self@[id as int] == self.arena@[id as int]@);
            let score: V = self.arena[id].prior.plus(values[i]);
            let share: V = V::count(counts[i]).over(V::count(1 + sum_visits));
            keys.push(score.minus(share).key());
            assert(keys@ =~= interior_keys(self@, children@, values@).take(i + 1));
        }
        assert(keys@ =~= interior_keys(self@, children@, values@));
        keys
    }
}

/// The exponentials of values, measured from the largest one and divided by a temperature.
pub open spec fn exponentials<V: Real>(values: Seq<V>, temperature: V) -> Seq<V> {
    Seq::new(
        values.len(),
        |i: int| v_exp(v_over(v_minus(values[i], greatest(values)), temperature)),
    )
}

/// Numbers divided by their sum, if that is above zero.
pub open spec fn normalized<V: Real>(items: Seq<V>) -> Seq<V> {
    if v_positive(total(items)) {
        Seq::new(items.len(), |i: int| v_over(items[i], total(items)))
    } else {
        items
    }
}

/// `n` equal shares.
pub open spec fn uniform_shares<V: Real>(n: nat) -> Seq<V> {
    Seq::new(n, |i: int| v_over(v_count(1), v_count(n as usize)))
}

/// Values turned into probabilities at a temperature. At temperature 0 they are all the same.
pub open spec fn softmax<V: Real>(values: Seq<V>, temperature: V) -> Seq<V> {
    if values.len() == 0 || v_is_zero(temperature) {
        uniform_shares(values.len())
    } else {
        normalized(exponentials(values, temperature))
    }
}

fn uniform_vec<V: Real>(n: usize) -> (shares: Vec<V>)
    requires
        exact::<V>(),
    ensures
        shares@ == uniform_shares::<V>(n as nat),
{
    let share: V = V::count(1).over(V::count(n));
    let mut shares: Vec<V> = Vec::new();
    for i in 0..n
        invariant
            share == v_over::<V>(v_count(1), v_count(n)),
            shares@ == uniform_shares::<V>(n as nat).take(i as int),
    {
        shares.push(share);
        assert(shares@ =~= uniform_shares::<V>(n as nat).take(i + 1));
    }
    assert(shares@ =~= uniform_shares::<V>(n as nat));
    shares
}

fn normalize<V: Real>(items: Vec<V>) -> (shares: Vec<V>)
    requires
        exact::<V>(),
    ensures
        shares@ == normalized(items@),
{
    let s: V = sum(&items);
    if !s.positive() {
        return items;
    }
    let mut shares: Vec<V> = Vec::new();
    for i in 0..items.len()
        invariant
            exact::<V>(),
            s == total(items@),
            v_positive(s),
            shares@ == normalized(items@).take(i as int),
    {
        shares.push(items[i].over(s));
        assert(shares@ =~= normalized(items@).take(i + 1));
    }
    assert(shares@ =~= normalized(items@));
    shares
}

/// Values turned into probabilities: see `softmax`.
pub fn softmax_full<V: Real>(values: &Vec<V>, temperature: V) -> (probs: Vec<V>)
    requires
        exact::<V>(),
    ensures
        probs@ == softmax(values@, temperature),
{
    if values.len() == 0 || temperature.is_zero() {
        return uniform_vec(values.len());
    }
    let max_val: V = greatest_of(values);
    let mut exps: Vec<V> = Vec::new();
    for i in 0..values.len()
        invariant
            exact::<V>(),
            max_val == greatest(values@),
            exps@ == exponentials(values@, temperature).take(i as int),
    {
        exps.push(values[i].minus(max_val).over(temperature).exp());
        assert(exps@ =~= exponentials(values@, temperature).take(i + 1));
    }
    assert(exps@ =~= exponentials(values@, temperature));
    normalize(exps)
}

/// The numbers of the listed actions.
pub open spec fn selected<V>(items: Seq<V>, actions: Seq<ActionId>) -> Seq<V> {
    Seq::new(actions.len(), |k: int| items[actions[k] as int])
}

/// Numbers turned into probabilities. When their exponentials do not add up to anything, they
/// are all the same.
pub open spec fn shares_of<V: Real>(chosen: Seq<V>) -> Seq<V> {
    let exps = Seq::new(chosen.len(), |k: int| v_exp(v_minus(chosen[k], greatest(chosen))));
    if v_positive(total(exps)) {
        Seq::new(chosen.len(), |k: int| v_over(exps[k], total(exps)))
    } else {
        uniform_shares(chosen.len())
    }
}

/// The numbers of the legal actions turned into probabilities, in the order of `legal`: see
/// `shares_of`.
pub open spec fn legal_shares<V: Real>(logits: Seq<V>, legal: Seq<ActionId>) -> Seq<V> {
    shares_of(selected(logits, legal))
}

fn share_out<V: Real>(chosen: &Vec<V>) -> (shares: Vec<V>)
    requires
        exact::<V>(),
    ensures
        shares@ == shares_of(chosen@),
{
    let most: V = greatest_of(chosen);
    let ghost goal = Seq::new(
        chosen@.len(),
        |k: int| v_exp(v_minus(chosen@[k], greatest(chosen@))),
    );
    let mut exps: Vec<V> = Vec::new();
    for k in 0..chosen.len()
        invariant
            exact::<V>(),
            most == greatest(chosen@),
            goal == Seq::new(
                chosen@.len(),
                |k: int| v_exp(v_minus(chosen@[k], greatest(chosen@))),
            ),
            exps@ == goal.take(k as int),
    {
        exps.push(chosen[k].minus(most).exp());
        assert(exps@ =~= goal.take(k + 1));
    }
    assert(exps@ =~= goal);
    let s: V = sum(&exps);
    let shares: Vec<V> = if s.positive() {
        normalize(exps)
    } else {
        uniform_vec(chosen.len())
    };
    assert(shares@ =~= shares_of(chosen@));
    shares
}

pub proof fn lemma_total_of_quotients<V: Real>(size: spec_fn(V) -> real, items: Seq<V>, by: V)
    requires
        unrounded(size),
        size(by) != 0real,
    ensures
        size(total(Seq::new(items.len(), |i: int| v_over(items[i], by)))) == size(total(items))
            / size(by),
    decreases items.len(),
{
    let quotients = Seq::new(items.len(), |i: int| v_over(items[i], by));
    let s = size(by);
    if items.len() == 0 {
        assert(0real / s == 0real) by (nonlinear_arith)
            requires
                s != 0real,
        ;
    } else {
        let rest = items.drop_last();
        lemma_total_of_quotients(size, rest, by);
        assert(quotients.drop_last() =~= Seq::new(rest.len(), |i: int| v_over(rest[i], by)));
        let a = size(total(rest));
        let b = size(items.last());
        assert((a + b) / s == a / s + b / s) by (nonlinear_arith)
            requires
                s != 0real,
        ;
    }
}

proof fn lemma_uniform_shares<V: Real>(size: spec_fn(V) -> real, n: nat)
    requires
        unrounded(size),
        0 < n <= usize::MAX,
    ensures
        size(total(uniform_shares::<V>(n))) == 1real,
{
    let ones = Seq::new(n, |i: int| v_count::<V>(1));
    lemma_total_of_ones(size, n);
    lemma_total_of_quotients(size, ones, v_count(n as usize));
    assert(uniform_shares::<V>(n) =~= Seq::new(
        ones.len(),
        |i: int| v_over(ones[i], v_count(n as usize)),
    ));
    let x = n as real;
    assert(x / x == 1real) by (nonlinear_arith)
        requires
            x > 0real,
    ;
}

proof fn lemma_total_of_ones<V: Real>(size: spec_fn(V) -> real, n: nat)
    requires
        unrounded(size),
    ensures
        size(total(Seq::new(n, |i: int| v_count::<V>(1)))) == n as real,
    decreases n,
{
    if n > 0 {
        lemma_total_of_ones(size, (n - 1) as nat);
        assert(Seq::new(n, |i: int| v_count::<V>(1)).drop_last() =~= Seq::new(
            (n - 1) as nat,
            |i: int| v_count::<V>(1),
        ));
    }
}

/// The probabilities of actions add up to 1, for numbers that are not rounded.
pub proof fn law_shares_add_up<V: Real>(size: spec_fn(V) -> real, chosen: Seq<V>)
    requires
        unrounded(size),
        0 < chosen.len() <= usize::MAX,
    ensures
        size(total(shares_of(chosen))) == 1real,
{
    let exps = Seq::new(chosen.len(), |k: int| v_exp(v_minus(chosen[k], greatest(chosen))));
    if v_positive(total(exps)) {
        lemma_total_of_quotients(size, exps, total(exps));
        assert(shares_of(chosen) =~= Seq::new(exps.len(), |i: int| v_over(exps[i], total(exps))));
        let s = size(total(exps));
        assert(s / s == 1real) by (nonlinear_arith)
            requires
                s > 0real,
        ;
    } else {
        lemma_uniform_shares(size, chosen.len());
    }
}

/// Values turned into probabilities at a temperature add up to 1, for numbers that are not
/// rounded, unless all exponentials vanish.
pub proof fn law_softmax_adds_up<V: Real>(
    size: spec_fn(V) -> real,
    values: Seq<V>,
    temperature: V,
)
    requires
        unrounded(size),
        0 < values.len() <= usize::MAX,
        v_is_zero(temperature) || v_positive(total(exponentials(values, temperature))),
    ensures
        size(total(softmax(values, temperature))) == 1real,
{
    if v_is_zero(temperature) {
        lemma_uniform_shares(size, values.len());
    } else {
        let exps = exponentials(values, temperature);
        lemma_total_of_quotients(size, exps, total(exps));
        let s = size(total(exps));
        assert(s / s == 1real) by (nonlinear_arith)
            requires
                s > 0real,
        ;
    }
}

/// `out` has `width` entries: `values[k]` at the place `places[k]`, and `rest` elsewhere.
pub open spec fn scattered<V>(
    places: Seq<ActionId>,
    values: Seq<V>,
    width: int,
    rest: V,
    out: Seq<V>,
) -> bool {
    &&& out.len() == width
    &&& forall|k: int| 0 <= k < places.len() ==> out[(#[trigger] places[k]) as int] == values[k]
    &&& forall|a: int|
        0 <= a < width && !places.contains(a as usize) ==> #[trigger] out[a] == rest
}

fn scatter<V: Copy>(places: &Vec<ActionId>, values: &Vec<V>, width: usize, rest: V) -> (out: Vec<V>)
    requires
        values@.len() == places@.len(),
        places@.no_duplicates(),
        forall|k: int| 0 <= k < places@.len() ==> (#[trigger] places@[k]) < width,
    ensures
        scattered(places@, values@, width as int, rest, out@),
{
    let mut out: Vec<V> = Vec::new();
    for a in 0..width
        invariant
            out@.len() == a,
            forall|b: int| 0 <= b < a ==> #[trigger] out@[b] == rest,
    {
        out.push(rest);
    }
    for k in 0..places.len()
        invariant
            out@.len() == width,
            values@.len() == places@.len(),
            places@.no_duplicates(),
            forall|k: int| 0 <= k < places@.len() ==> (#[trigger] places@[k]) < width,
            forall|j: int| 0 <= j < k ==> out@[(#[trigger] places@[j]) as int] == values@[j],
            forall|a: int|
                0 <= a < width && !places@.contains(a as usize) ==> #[trigger] out@[a] == rest,
    {
        let place: usize = places[k];
        assert(places@.contains(place));
        out[place] = values[k];
    }
    out
}

/// The evaluator's numbers for the legal actions turned into probabilities; the other
/// actions have none.
pub fn softmax_legal<V: Real>(logits: &Vec<V>, legal: &Vec<ActionId>) -> (probs: Vec<V>)
    requires
        exact::<V>(),
        legal@.no_duplicates(),
        forall|k: int| 0 <= k < legal@.len() ==> (#[trigger] legal@[k]) < logits@.len(),
    ensures
        scattered(
            legal@,
            legal_shares(logits@, legal@),
            logits@.len() as int,
            v_zero(),
            probs@,
        ),
{
    let mut chosen: Vec<V> = Vec::new();
    for k in 0..legal.len()
        invariant
            forall|k: int| 0 <= k < legal@.len() ==> (#[trigger] legal@[k]) < logits@.len(),
            chosen@ == selected(logits@, legal@).take(k as int),
    {
        chosen.push(logits[legal[k]]);
        assert(chosen@ =~= selected(logits@, legal@).take(k + 1));
    }
    assert(chosen@ =~= selected(logits@, legal@));
    let shares = share_out(&chosen);
    scatter(legal, &shares, logits.len(), V::zero())
}

/// The evaluator's numbers for the actions at the node `id`, as the children keep them.
pub open spec fn stored_logits<V>(
    tree: Seq<NodeState<V>>,
    id: int,
    actions: Seq<ActionId>,
) -> Seq<V> {
    Seq::new(actions.len(), |k: int| tree[tree[id].children[actions[k]] as int].logit)
}

/// The evaluator's probabilities at the node `id`: its numbers for the legal actions, as the
/// children keep them, turned into probabilities; the other actions have none.
pub open spec fn is_raw_prior<V: Real>(
    tree: Seq<NodeState<V>>,
    id: int,
    legal: Seq<ActionId>,
    width: int,
    prior: Seq<V>,
) -> bool {
    scattered(legal, shares_of(stored_logits(tree, id, legal)), width, v_zero(), prior)
}

impl<V: Real> MCTS<V> {
    /// The evaluator's probabilities at the root, whatever noise was mixed in since: see
    /// `is_raw_prior`.
    pub fn raw_prior(&self, legal: &Vec<ActionId>, action_shape: usize) -> (prior: Vec<V>)
        requires
            exact::<V>(),
            self.wf(),
            legal@.no_duplicates(),
            forall|k: int|
                0 <= k < legal@.len() ==> (#[trigger] legal@[k]) < action_shape
                    && self@[self.root_id as int].children.contains_key(legal@[k]),
        ensures
            is_raw_prior(
                self@,
                self.root_id as int,
                legal@,
                action_shape as int,
                prior@,
            ),
    {
        let ghost goal = stored_logits(self@, self.root_id as int, legal@);
        let mut chosen: Vec<V> = Vec::new();
        for k in 0..legal.len()
            invariant
                exact::<V>(),
                self.wf(),
                goal == stored_logits(self@, self.root_id as int, legal@),
                forall|k: int|
                    0 <= k < legal@.len() ==> (#[trigger] legal@[k]) < action_shape
                        && self@[self.root_id as int].children.contains_key(legal@[k]),
                chosen@ == goal.take(k as int),
        {
            let action: ActionId = legal[k];
            match self.child(self.root_id, action) {
                Some(id) => {
                    assert(self@[id as int] == self.arena@[id as int]@);
                    chosen.push(self.arena[id].policy_logit);
                },
                None => {
                    chosen.push(V::zero());
                },
            }
            assert(chosen@ =~= goal.take(k + 1));
        }
        assert(chosen@ =~= goal);
        let shares = share_out(&chosen);
        scatter(legal, &shares, action_shape, V::zero())
    }
}

/// The improved policy at the root: the completed values and the evaluator's numbers of the
/// children added up and turned into probabilities. `children` lists them.
pub open spec fn improved<G: Scored<V>, V: Real>(
    tree: Seq<NodeState<V>>,
    root: int,
    children: Seq<(ActionId, NodeId)>,
    config: GumbelConfig<V>,
    width: int,
    policy: Seq<V>,
) -> bool {
    let values = completed::<G, V>(tree, root, children, config);
    let scores = Seq::new(
        children.len(),
        |i: int| v_plus(tree[children[i].1 as int].logit, values[i]),
    );
    let actions = Seq::new(children.len(), |i: int| children[i].0);
    exists|all: Seq<V>|
        scattered(actions, scores, width, v_lowest(), all) && policy == #[trigger] softmax(
            all,
            v_count(1),
        )
}

impl<V: Real> MCTS<V> {
    /// The improved policy at the root: see `improved`. In which order the children are
    /// taken is left open. Without children the policy is zero.
    pub fn improved_policy<G: Scored<V>>(
        &self,
        config: &GumbelConfig<V>,
        action_shape: usize,
    ) -> (policy: Vec<V>)
        requires
            exact::<V>(),
            self.wf(),
            self@[self.root_id as int].raw is Some,
            forall|a: ActionId| #[trigger]
                self@[self.root_id as int].children.contains_key(a) ==> a < action_shape,
            self@[0].visits < u32::MAX,
            config.max_visit_init + self@[0].visits <= usize::MAX,
        ensures
            self@[self.root_id as int].children.is_empty() ==> zeros(
                policy@,
                action_shape as int,
            ),
            !self@[self.root_id as int].children.is_empty() ==> exists|
                children: Seq<(ActionId, NodeId)>,
            |
                lists(self@[self.root_id as int].children, children) && #[trigger] improved::<G, V>(
                    self@,
                    self.root_id as int,
                    children,
                    *config,
                    action_shape as int,
                    policy@,
                ),
    {
        let children = self.children_vec(self.root_id);
        let ghost map = self@[self.root_id as int].children;
        if children.len() == 0 {
            proof {
                if !map.is_empty() {
                    if forall|a: ActionId| !map.contains_key(a) {
                        assert(map =~= Map::empty());
                    }
                    let a = choose|a: ActionId| map.contains_key(a);
                    assert(children@.contains((a, map[a])));
                }
            }
            return zero_vec(action_shape);
        }
        proof {
            assert(map.contains_key(children@[0].0));
            lemma_countable(self@, self.root_id as int, children@, *config);
        }
        let values = self.completed_q_values::<G>(self.root_id, &children, config);
        let ghost goal = Seq::new(
            children@.len(),
            |i: int| v_plus(self@[children@[i].1 as int].logit, values@[i]),
        );
        let ghost places = Seq::new(children@.len(), |i: int| children@[i].0);
        let mut scores: Vec<V> = Vec::new();
        let mut actions: Vec<ActionId> = Vec::new();
        for i in 0..children.len()
            invariant
                exact::<V>(),
                values@.len() == children@.len(),
                forall|i: int|
                    0 <= i < children@.len() ==> (#[trigger] children@[i]).1 < self@.len(),
                goal == Seq::new(
                    children@.len(),
                    |i: int| v_plus(self@[children@[i].1 as int].logit, values@[i]),
                ),
                places == Seq::new(children@.len(), |i: int| children@[i].0),
                scores@ == goal.take(i as int),
                actions@ == places.take(i as int),
        {
            let id: NodeId = children[i].1;
            assert(self@[id as int] == self.arena@[id as int]@);
            scores.push(self.arena[id].policy_logit.plus(values[i]));
            actions.push(children[i].0);
            assert(scores@ =~= goal.take(i + 1));
            assert(actions@ =~= places.take(i + 1));
        }
        assert(scores@ =~= goal);
        assert(actions@ =~= places);
        proof {
            assert forall|i: int, j: int|
                0 <= i < actions@.len() && 0 <= j < actions@.len() && i != j implies actions@[i]
                != actions@[j] by {
                if i < j {
                    assert(children@[i].0 != children@[j].0);
                } else {
                    assert(children@[j].0 != children@[i].0);
                }
            }
            assert forall|k: int| 0 <= k < actions@.len() implies (#[trigger] actions@[k])
                < action_shape by {
                assert(map.contains_key(children@[k].0));
            }
        }
        let all = scatter(&actions, &scores, action_shape, V::lowest());
        let policy = softmax_full(&all, V::count(1));
        assert(improved::<G, V>(
            self@,
            self.root_id as int,
            children@,
            *config,
            action_shape as int,
            policy@,
        ));
        policy
    }
}

/// The logarithms of counts.
pub open spec fn logarithms<W: Real>(counts: Seq<u32>) -> Seq<W> {
    Seq::new(counts.len(), |i: int| v_ln(v_count(counts[i] as usize)))
}

/// Counts turned into probabilities at a temperature: their logarithms by `softmax`, so that
/// the probability of an entry is proportional to its count raised to the inverse of the
/// temperature. Without any count, or at temperature 0, all probabilities are the same.
pub open spec fn count_shares<W: Real>(counts: Seq<u32>, temperature: W) -> Seq<W> {
    if forall|i: int| 0 <= i < counts.len() ==> #[trigger] counts[i] == 0 {
        uniform_shares(counts.len())
    } else {
        softmax(logarithms(counts), temperature)
    }
}

/// The probabilities with which the final action is drawn: see `count_shares`.
pub fn visit_count_distribution<W: Real>(visits: &Vec<u32>, temperature: W) -> (shares: Vec<W>)
    requires
        exact::<W>(),
    ensures
        shares@ == count_shares::<W>(visits@, temperature),
{
    let mut any: bool = false;
    let mut logs: Vec<W> = Vec::new();
    for i in 0..visits.len()
        invariant
            exact::<W>(),
            any <==> exists|k: int| 0 <= k < i && #[trigger] visits@[k] != 0,
            logs@ == logarithms::<W>(visits@).take(i as int),
    {
        if visits[i] != 0 {
            any = true;
        }
        logs.push(W::count(visits[i] as usize).ln());
        assert(logs@ =~= logarithms::<W>(visits@).take(i + 1));
    }
    assert(logs@ =~= logarithms::<W>(visits@));
    if !any {
        return uniform_vec(visits.len());
    }
    softmax_full(&logs, temperature)
}

/// The terms of the value of the root: the values of the actions, each weighed by its share of
/// all visits.
pub open spec fn weighed<V: Real>(values: Seq<V>, visits: Seq<u32>) -> Seq<V> {
    Seq::new(
        values.len(),
        |i: int|
            v_times(
                v_over(v_count(visits[i] as usize), v_count(sum_of(visits) as usize)),
                values[i],
            ),
    )
}

/// The value of the root: the mean of the values of the actions, weighed by how often they
/// were tried. Where no action was tried it is the evaluator's value.
pub open spec fn root_worth<V: Real>(values: Seq<V>, visits: Seq<u32>, nn_value: V) -> V {
    if sum_of(visits) == 0 {
        nn_value
    } else {
        total(weighed(values, visits))
    }
}

/// The value of the root: see `root_worth`.
pub fn root_value<V: Real>(values: &Vec<V>, visits: &Vec<u32>, nn_value: V) -> (value: V)
    requires
        exact::<V>(),
        visits@.len() == values@.len(),
        sum_of(visits@) <= u32::MAX,
    ensures
        value == root_worth(values@, visits@, nn_value),
{
    let tried: u32 = sum_visits(visits);
    if tried == 0 {
        return nn_value;
    }
    let all: V = V::count(tried as usize);
    let mut terms: Vec<V> = Vec::new();
    for i in 0..values.len()
        invariant
            exact::<V>(),
            visits@.len() == values@.len(),
            tried == sum_of(visits@),
            all == v_count::<V>(tried as usize),
            terms@ == weighed(values@, visits@).take(i as int),
    {
        terms.push(V::count(visits[i] as usize).over(all).times(values[i]));
        assert(terms@ =~= weighed(values@, visits@).take(i + 1));
    }
    assert(terms@ =~= weighed(values@, visits@));
    sum(&terms)
}

proof fn lemma_weighed<V: Real>(
    size: spec_fn(V) -> real,
    values: Seq<V>,
    visits: Seq<u32>,
    n: int,
    low: real,
    high: real,
)
    requires
        unrounded(size),
        values.len() == visits.len(),
        0 <= n <= visits.len(),
        0 < sum_of(visits) <= u32::MAX,
        forall|i: int|
            0 <= i < visits.len() && #[trigger] visits[i] > 0 ==> low <= size(values[i]) <= high,
    ensures
        ({
            let part = sum_of(visits.take(n)) as real / sum_of(visits) as real;
            low * part <= size(total(weighed(values, visits).take(n))) <= high * part
        }),
    decreases n,
{
    let all = sum_of(visits) as real;
    let terms = weighed(values, visits);
    if n == 0 {
        assert(visits.take(0) =~= Seq::empty());
        assert(0real / all == 0real) by (nonlinear_arith)
            requires
                all > 0real,
        ;
        assert(low * 0real == 0real && high * 0real == 0real) by (nonlinear_arith);
    } else {
        lemma_weighed(size, values, visits, n - 1, low, high);
        assert(visits.take(n).drop_last() =~= visits.take(n - 1));
        assert(terms.take(n).drop_last() =~= terms.take(n - 1));
        let a = sum_of(visits.take(n - 1)) as real;
        let c = visits[n - 1] as real;
        let v = size(values[n - 1]);
        assert(sum_of(visits.take(n)) as real == a + c);
        assert(terms.take(n).last() == terms[n - 1]);
        assert(size(terms[n - 1]) == c / all * v);
        let b = c / all;
        assert((a + c) / all == a / all + b) by (nonlinear_arith)
            requires
                all > 0real,
                b == c / all,
        ;
        assert(b >= 0real && (c == 0real ==> b == 0real)) by (nonlinear_arith)
            requires
                all > 0real,
                c >= 0real,
                b == c / all,
        ;
        let x = a / all;
        assert(low * (x + b) == low * x + low * b) by (nonlinear_arith);
        assert(high * (x + b) == high * x + high * b) by (nonlinear_arith);
        if visits[n - 1] > 0 {
            assert(low * b <= b * v <= high * b) by (nonlinear_arith)
                requires
                    low <= v <= high,
                    b >= 0real,
            ;
        } else {
            assert(low * b == 0real && b * v == 0real && high * b == 0real) by (nonlinear_arith)
                requires
                    b == 0real,
            ;
        }
    }
}

/// The value of the root lies between the least and the greatest value of the actions that
/// were tried, for numbers that are not rounded: bounds of these are bounds of it.
pub proof fn law_root_value_lies_between<V: Real>(
    size: spec_fn(V) -> real,
    values: Seq<V>,
    visits: Seq<u32>,
    nn_value: V,
    low: real,
    high: real,
)
    requires
        unrounded(size),
        values.len() == visits.len(),
        0 < sum_of(visits) <= u32::MAX,
        forall|i: int|
            0 <= i < visits.len() && #[trigger] visits[i] > 0 ==> low <= size(values[i]) <= high,
    ensures
        low <= size(root_worth(values, visits, nn_value)) <= high,
{
    let n = visits.len() as int;
    lemma_weighed(size, values, visits, n, low, high);
    assert(visits.take(n) =~= visits);
    assert(weighed(values, visits).take(n) =~= weighed(values, visits));
    let all = sum_of(visits) as real;
    assert(low * (all / all) == low && high * (all / all) == high) by (nonlinear_arith)
        requires
            all > 0real,
    ;
}

/// A probability with noise mixed in: `share` of it is noise.
pub open spec fn noisy<V: Real>(prior: V, noise: V, share: V) -> V {
    v_plus(v_times(prior, v_minus(v_count(1), share)), v_times(noise, share))
}

impl<V: Real> MCTS<V> {
    /// Mixes noise into the probabilities of the listed children of the root: `noise[k]`
    /// goes into that of `children[k]`.
    pub fn mix_noise(
        &mut self,
        children: &Vec<(ActionId, NodeId)>,
        noise: &Vec<V>,
        share: V,
    )
        requires
            exact::<V>(),
            old(self).wf(),
            lists(old(self)@[old(self).root_id as int].children, children@),
            noise@.len() == children@.len(),
        ensures
            final(self).wf(),
            final(self).root_id == old(self).root_id,
            final(self)@.len() == old(self)@.len(),
            forall|k: int|
                0 <= k < children@.len() ==> final(self)@[(#[trigger] children@[k]).1 as int] == (
                NodeState {
                    prior: noisy(
                        old(self)@[children@[k].1 as int].prior,
                        noise@[k],
                        share,
                    ),
                    ..old(self)@[children@[k].1 as int]
                }),
            forall|i: int|
                0 <= i < old(self)@.len() && (forall|k: int|
                    0 <= k < children@.len() ==> (#[trigger] children@[k]).1 != i)
                    ==> #[trigger] final(self)@[i] == old(self)@[i],
            forall|id: int|
                0 <= id < old(self)@.len() ==> #[trigger] same_answer(
                    old(self)@,
                    final(self)@,
                    id,
                ),
            noise_mixed(old(self)@, final(self)@),
    {
        let ghost root = self.root_id as int;
        let ghost before = self@;
        proof {
            assert forall|k: int| 0 <= k < children@.len() implies (#[trigger] children@[k]).1
                < self@.len() by {
                assert(leads_to(self@, root, children@[k].0, children@[k].1 as int));
            }
            assert forall|k: int, l: int| 0 <= k < l < children@.len() implies (
            #[trigger] children@[k]).1 != (#[trigger] children@[l]).1 by {
                assert(leads_to(self@, root, children@[k].0, children@[k].1 as int));
                assert(leads_to(self@, root, children@[l].0, children@[l].1 as int));
            }
        }
        let keep: V = V::count(1).minus(share);
        let ghost goal = Seq::new(
            children@.len(),
            |k: int| noisy(self@[children@[k].1 as int].prior, noise@[k], share),
        );
        let mut priors: Vec<V> = Vec::new();
        for k in 0..children.len()
            invariant
                exact::<V>(),
                noise@.len() == children@.len(),
                keep == v_minus::<V>(v_count(1), share),
                forall|k: int|
                    0 <= k < children@.len() ==> (#[trigger] children@[k]).1 < self@.len(),
                goal == Seq::new(
                    children@.len(),
                    |k: int| noisy(self@[children@[k].1 as int].prior, noise@[k], share),
                ),
                priors@ == goal.take(k as int),
        {
            let id: NodeId = children[k].1;
            assert(self@[id as int] == self.arena@[id as int]@);
            priors.push(self.arena[id].prior.times(keep).plus(noise[k].times(share)));
            assert(priors@ =~= goal.take(k + 1));
        }
        assert(priors@ =~= goal);
        self.set_priors(children, &priors);
        proof {
            assert forall|i: int| 0 <= i < before.len() implies #[trigger] self@[i] == (NodeState {
                prior: self@[i].prior,
                ..before[i]
            }) by {
                if exists|k: int| 0 <= k < children@.len() && (#[trigger] children@[k]).1 == i {
                    let k = choose|k: int|
                        0 <= k < children@.len() && (#[trigger] children@[k]).1 == i;
                    assert(self@[children@[k].1 as int].logit == before[i].logit);
                }
            }
            assert forall|id: int| 0 <= id < before.len() implies #[trigger] same_answer(
                before,
                self@,
                id,
            ) by {
                assert forall|a: ActionId| #[trigger] before[id].children.contains_key(
                    a,
                ) implies self@[before[id].children[a] as int].logit
                    == before[before[id].children[a] as int].logit by {
                    assert(leads_to(before, id, a, before[id].children[a] as int));
                }
            }
        }
    }
}

/// The contribution of one action to the surprise: its first probability times the logarithm
/// of how much larger it is than the second one. Neither counts as less than `Real::tiny`,
/// and a negligible first one contributes nothing.
pub open spec fn surprise_term<V: Real>(prior: V, posterior: V) -> Option<V> {
    let p = v_larger(prior, v_tiny());
    let q = v_larger(posterior, v_tiny());
    if v_negligible(p) {
        None
    } else {
        Some(v_times(p, v_ln(v_over(p, q))))
    }
}

/// The sum of the first `n` contributions to the surprise.
pub open spec fn surprise<V: Real>(priors: Seq<V>, posteriors: Seq<V>, n: int) -> V
    decreases n,
{
    if n <= 0 {
        v_zero()
    } else {
        let before = surprise(priors, posteriors, n - 1);
        match surprise_term(priors[n - 1], posteriors[n - 1]) {
            Some(term) => v_plus(before, term),
            None => before,
        }
    }
}

/// How much the search surprised the evaluator: see `surprise`. Only actions that both
/// policies have count.
pub fn compute_kl<V: Real>(nn_prior: &Vec<V>, mcts_policy: &Vec<V>) -> (kl: V)
    requires
        exact::<V>(),
    ensures
        kl == surprise(
            nn_prior@,
            mcts_policy@,
            if nn_prior@.len() <= mcts_policy@.len() {
                nn_prior@.len() as int
            } else {
                mcts_policy@.len() as int
            },
        ),
{
    let npos: usize = if nn_prior.len() <= mcts_policy.len() {
        nn_prior.len()
    } else {
        mcts_policy.len()
    };
    let mut kl: V = V::zero();
    for i in 0..npos
        invariant
            exact::<V>(),
            npos <= nn_prior@.len(),
            npos <= mcts_policy@.len(),
            kl == surprise(nn_prior@, mcts_policy@, i as int),
    {
        let p: V = nn_prior[i].larger(V::tiny());
        let q: V = mcts_policy[i].larger(V::tiny());
        if !p.negligible() {
            kl = kl.plus(p.times(p.over(q).ln()));
        }
    }
    kl
}

} // verus!
