//! Adding up what the batches of an epoch report.

use vstd::prelude::*;
use crate::number::{
    exact, sum, total, v_count, v_mean, v_minus, v_over, v_times, v_vanishing, v_zero, Real, Score,
};
use crate::reals::{lemma_cancel, lemma_quotient, lemma_rearrange, unrounded_order};

verus! {

/// What one batch reports.
#[derive(Debug, Clone)]
pub struct BatchStats<V> {
    pub total_loss: V,
    pub policy_loss: V,
    pub value_loss: V,
    pub entropy: V,
    pub batch_size: usize,
}

/// What the batches of an epoch report, added up.
#[derive(Debug, Clone)]
pub struct EpochStats<V> {
    pub total_loss_sum: V,
    pub policy_loss_sum: V,
    pub value_loss_sum: V,
    pub entropy_sum: V,
    pub num_batches: usize,
    pub total_samples: usize,
    /// The values that were predicted.
    pub all_value_preds: Vec<V>,
    /// The values that should have been predicted.
    pub all_value_targets: Vec<V>,
}

/// `mean` is `sum` divided by `count`, or zero when there is nothing to divide by.
pub open spec fn is_average<V: Score>(sum: V, count: int, mean: V) -> bool {
    if count == 0 {
        V::zero.ensures((), mean)
    } else {
        V::mean.ensures((sum, count as usize), mean)
    }
}

fn average<V: Score>(sum: V, count: usize) -> (mean: V)
    ensures
        is_average(sum, count as int, mean),
{
    if count == 0 {
        V::zero()
    } else {
        sum.mean(count)
    }
}

impl<V: Score> Default for EpochStats<V> {
    /// No batch was added.
    fn default() -> (stats: EpochStats<V>)
        ensures
            V::zero.ensures((), stats.total_loss_sum),
            V::zero.ensures((), stats.policy_loss_sum),
            V::zero.ensures((), stats.value_loss_sum),
            V::zero.ensures((), stats.entropy_sum),
            stats.num_batches == 0,
            stats.total_samples == 0,
            stats.all_value_preds@ == Seq::<V>::empty(),
            stats.all_value_targets@ == Seq::<V>::empty(),
    {
        EpochStats {
            total_loss_sum: V::zero(),
            policy_loss_sum: V::zero(),
            value_loss_sum: V::zero(),
            entropy_sum: V::zero(),
            num_batches: 0,
            total_samples: 0,
            all_value_preds: Vec::new(),
            all_value_targets: Vec::new(),
        }
    }
}

impl<V: Score> EpochStats<V> {
    /// Adds a batch.
    pub fn push(&mut self, batch: BatchStats<V>)
        requires
            old(self).num_batches < usize::MAX,
            old(self).total_samples + batch.batch_size <= usize::MAX,
        ensures
            V::plus.ensures(
                (old(self).total_loss_sum, batch.total_loss),
                final(self).total_loss_sum,
            ),
            V::plus.ensures(
                (old(self).policy_loss_sum, batch.policy_loss),
                final(self).policy_loss_sum,
            ),
            V::plus.ensures(
                (old(self).value_loss_sum, batch.value_loss),
                final(self).value_loss_sum,
            ),
            V::plus.ensures((old(self).entropy_sum, batch.entropy), final(self).entropy_sum),
            final(self).num_batches == old(self).num_batches + 1,
            final(self).total_samples == old(self).total_samples + batch.batch_size,
            final(self).all_value_preds == old(self).all_value_preds,
            final(self).all_value_targets == old(self).all_value_targets,
    {
        self.total_loss_sum = self.total_loss_sum.plus(batch.total_loss);
        self.policy_loss_sum = self.policy_loss_sum.plus(batch.policy_loss);
        self.value_loss_sum = self.value_loss_sum.plus(batch.value_loss);
        self.entropy_sum = self.entropy_sum.plus(batch.entropy);
        self.num_batches = self.num_batches + 1;
        self.total_samples = self.total_samples + batch.batch_size;
    }

    /// Notes what a batch predicted and should have predicted.
    pub fn note_values(&mut self, preds: Vec<V>, targets: Vec<V>)
        ensures
            final(self).all_value_preds@ == old(self).all_value_preds@ + preds@,
            final(self).all_value_targets@ == old(self).all_value_targets@ + targets@,
            final(self).num_batches == old(self).num_batches,
            final(self).total_samples == old(self).total_samples,
            final(self).total_loss_sum == old(self).total_loss_sum,
            final(self).policy_loss_sum == old(self).policy_loss_sum,
            final(self).value_loss_sum == old(self).value_loss_sum,
            final(self).entropy_sum == old(self).entropy_sum,
    {
        let mut preds = preds;
        let mut targets = targets;
        self.all_value_preds.append(&mut preds);
        self.all_value_targets.append(&mut targets);
    }

    /// The mean loss of a batch.
    pub fn avg_total_loss(&self) -> (mean: V)
        ensures
            is_average(self.total_loss_sum, self.num_batches as int, mean),
    {
        average(self.total_loss_sum, self.num_batches)
    }

    /// The mean policy loss of a batch.
    pub fn avg_policy_loss(&self) -> (mean: V)
        ensures
            is_average(self.policy_loss_sum, self.num_batches as int, mean),
    {
        average(self.policy_loss_sum, self.num_batches)
    }

    /// The mean value loss of a batch.
    pub fn avg_value_loss(&self) -> (mean: V)
        ensures
            is_average(self.value_loss_sum, self.num_batches as int, mean),
    {
        average(self.value_loss_sum, self.num_batches)
    }

    /// The mean entropy of a batch.
    pub fn avg_entropy(&self) -> (mean: V)
        ensures
            is_average(self.entropy_sum, self.num_batches as int, mean),
    {
        average(self.entropy_sum, self.num_batches)
    }
}

/// The squares of the differences between `items` and `others`, as far as both go.
pub open spec fn squares<V: Real>(items: Seq<V>, others: Seq<V>) -> Seq<V> {
    Seq::new(
        if items.len() <= others.len() {
            items.len()
        } else {
            others.len()
        },
        |i: int| v_times(v_minus(items[i], others[i]), v_minus(items[i], others[i])),
    )
}

/// `n` times the same number.
pub open spec fn repeated<V>(item: V, n: nat) -> Seq<V> {
    Seq::new(n, |i: int| item)
}

/// How much of the variance of the targets the predictions explain: 1 less the variance of
/// what is left, divided by that of the targets. Fewer than two predictions explain nothing,
/// and targets that do not vary are explained. The numbers of both are taken together as far
/// as both go.
pub open spec fn explained<V: Real>(predictions: Seq<V>, targets: Seq<V>) -> V {
    let n = predictions.len();
    let one = v_count::<V>(1);
    if n < 2 {
        v_zero()
    } else {
        let degrees = v_minus(v_count(n as usize), one);
        let mean = v_over(total(targets), v_count(n as usize));
        let spread = v_over(total(squares(targets, repeated(mean, targets.len()))), degrees);
        if v_vanishing(spread) {
            one
        } else {
            v_minus(
                one,
                v_over(v_over(total(squares(targets, predictions)), degrees), spread),
            )
        }
    }
}

fn squares_of<V: Real>(items: &Vec<V>, others: &Vec<V>) -> (squared: Vec<V>)
    requires
        exact::<V>(),
    ensures
        squared@ == squares(items@, others@),
{
    let mut squared: Vec<V> = Vec::new();
    let n: usize = if items.len() <= others.len() {
        items.len()
    } else {
        others.len()
    };
    for i in 0..n
        invariant
            exact::<V>(),
            n <= items@.len(),
            n <= others@.len(),
            n == squares(items@, others@).len(),
            squared@ == squares(items@, others@).take(i as int),
    {
        let d: V = items[i].minus(others[i]);
        squared.push(d.times(d));
        assert(squared@ =~= squares(items@, others@).take(i + 1));
    }
    assert(squared@ =~= squares(items@, others@));
    squared
}

/// How much of the variance of the targets the predictions explain: see `explained`.
pub fn explained_variance<V: Real>(predictions: &Vec<V>, targets: &Vec<V>) -> (share: V)
    requires
        exact::<V>(),
    ensures
        share == explained(predictions@, targets@),
{
    let n: usize = predictions.len();
    if n < 2 {
        return V::zero();
    }
    let one: V = V::count(1);
    let many: V = V::count(n);
    let degrees: V = many.minus(one);
    let mean: V = sum(targets).over(many);
    let mut means: Vec<V> = Vec::new();
    for i in 0..targets.len()
        invariant
            means@ == repeated(mean, i as nat),
    {
        means.push(mean);
        assert(means@ =~= repeated(mean, (i + 1) as nat));
    }
    let spread: V = sum(&squares_of(targets, &means)).over(degrees);
    if spread.vanishing() {
        return one;
    }
    let rest: V = sum(&squares_of(targets, predictions)).over(degrees);
    one.minus(rest.over(spread))
}

/// The first `n` numbers, added up.
pub open spec fn plain_sum<V>(size: spec_fn(V) -> real, items: Seq<V>, n: int) -> real
    decreases n,
{
    if n <= 0 {
        0real
    } else {
        plain_sum(size, items, n - 1) + size(items[n - 1])
    }
}

/// The squares of the distances of the first `n` numbers from `centre`, added up.
pub open spec fn squares_about<V>(
    size: spec_fn(V) -> real,
    items: Seq<V>,
    centre: real,
    n: int,
) -> real
    decreases n,
{
    if n <= 0 {
        0real
    } else {
        squares_about(size, items, centre, n - 1) + (size(items[n - 1]) - centre) * (size(
            items[n - 1],
        ) - centre)
    }
}

/// The squares of the distances between the first `n` numbers of both, added up.
pub open spec fn squares_between<V>(
    size: spec_fn(V) -> real,
    items: Seq<V>,
    others: Seq<V>,
    n: int,
) -> real
    decreases n,
{
    if n <= 0 {
        0real
    } else {
        squares_between(size, items, others, n - 1) + (size(items[n - 1]) - size(others[n - 1]))
            * (size(items[n - 1]) - size(others[n - 1]))
    }
}

proof fn lemma_plain_sum<V: Real>(size: spec_fn(V) -> real, items: Seq<V>, n: int)
    requires
        unrounded_order(size),
        0 <= n <= items.len(),
    ensures
        size(total(items.take(n))) == plain_sum(size, items, n),
    decreases n,
{
    if n == 0 {
        assert(items.take(0) =~= Seq::empty());
    } else {
        lemma_plain_sum(size, items, n - 1);
        assert(items.take(n).drop_last() =~= items.take(n - 1));
    }
}

proof fn lemma_squares<V: Real>(
    size: spec_fn(V) -> real,
    items: Seq<V>,
    others: Seq<V>,
    n: int,
)
    requires
        unrounded_order(size),
        0 <= n <= items.len(),
        n <= others.len(),
    ensures
        size(total(squares(items, others).take(n))) == squares_between(size, items, others, n),
    decreases n,
{
    let all = squares(items, others);
    if n == 0 {
        assert(all.take(0) =~= Seq::empty());
    } else {
        lemma_squares(size, items, others, n - 1);
        assert(all.take(n).drop_last() =~= all.take(n - 1));
        assert(all.take(n).last() == all[n - 1]);
    }
}

proof fn lemma_squares_about<V: Real>(
    size: spec_fn(V) -> real,
    items: Seq<V>,
    centre: V,
    n: int,
)
    requires
        0 <= n <= items.len(),
    ensures
        squares_between(size, items, repeated(centre, items.len()), n) == squares_about(
            size,
            items,
            size(centre),
            n,
        ),
    decreases n,
{
    if n > 0 {
        lemma_squares_about(size, items, centre, n - 1);
    }
}

/// What the predictions leave unexplained is to the whole as the squares of the errors are to
/// the squares of the distances of the targets from their mean: so perfect predictions explain
/// everything, and predicting the mean explains nothing. Targets that hardly vary, by less
/// than `limit` in the mean, count as explained.
pub proof fn law_explained_variance<V: Real>(
    size: spec_fn(V) -> real,
    predictions: Seq<V>,
    targets: Seq<V>,
    mean: real,
    limit: real,
)
    requires
        unrounded_order(size),
        forall|a: V| #[trigger] v_vanishing(a) <==> size(a) < limit,
        limit > 0real,
        targets.len() == predictions.len(),
        2 <= targets.len() <= usize::MAX,
        mean * targets.len() as real == plain_sum(size, targets, targets.len() as int),
    ensures
        ({
            let n = targets.len() as int;
            let whole = squares_about(size, targets, mean, n);
            let errors = squares_between(size, targets, predictions, n);
            let share = size(explained(predictions, targets));
            &&& whole >= limit * (n as real - 1real) ==> (1real - share) * whole == errors
            &&& whole < limit * (n as real - 1real) ==> share == 1real
        }),
{
    let n = targets.len() as int;
    let centre = v_over(total(targets), v_count(n as usize));
    let m = n as real;
    let d = m - 1real;
    assert(targets.take(n) =~= targets);
    lemma_plain_sum(size, targets, n);
    lemma_quotient(size(total(targets)), m);
    lemma_cancel(size(centre), mean, m);
    let means = repeated(centre, targets.len());
    assert(squares(targets, means).take(n) =~= squares(targets, means));
    assert(squares(targets, predictions).take(n) =~= squares(targets, predictions));
    lemma_squares(size, targets, means, n);
    lemma_squares(size, targets, predictions, n);
    lemma_squares_about(size, targets, centre, n);
    let whole = squares_about(size, targets, mean, n);
    let errors = squares_between(size, targets, predictions, n);
    let degrees = v_minus(v_count::<V>(n as usize), v_count(1));
    assert(size(degrees) == d);
    let spread = v_over(total(squares(targets, means)), degrees);
    let rest = v_over(total(squares(targets, predictions)), degrees);
    let s = size(spread);
    let r = size(rest);
    lemma_quotient(whole, d);
    lemma_quotient(errors, d);
    assert(s * d == whole);
    assert(r * d == errors);
    lemma_cancel(s, limit, d);
    lemma_cancel(limit, s, d);
    if whole >= limit * d {
        assert(!v_vanishing(spread));
        let share = size(explained(predictions, targets));
        assert(share == 1real - r / s);
        lemma_quotient(r, s);
        lemma_rearrange(r / s, s, d);
    }
}

/// The mean of batches times their number is their sum.
pub proof fn law_average<V: Real>(size: spec_fn(V) -> real, sum: V, count: int, mean: V)
    requires
        exact::<V>(),
        unrounded_order(size),
        0 <= count <= usize::MAX,
        is_average(sum, count, mean),
    ensures
        count > 0 ==> size(mean) * count as real == size(sum),
        count == 0 ==> size(mean) == 0real,
{
    if count > 0 {
        lemma_quotient(size(sum), count as real);
        assert(mean == v_mean(sum, count as usize));
    }
}

} // verus!
