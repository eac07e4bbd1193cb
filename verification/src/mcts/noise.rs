//! What becomes of random numbers in a search.

use vstd::prelude::*;
use crate::mcts::game::ActionId;
use crate::mcts::policy::lemma_total_of_quotients;
use crate::number::{
    exact, sum, total, unrounded, v_count, v_key, v_larger, v_negated, v_over, v_positive,
    v_smaller, v_times, Real,
};
use crate::reals::unrounded_order;

verus! {

/// A number cut off at 12 and at -12.
pub open spec fn cut<V: Real>(x: V) -> V {
    v_smaller(v_larger(x, v_negated(v_count(12))), v_count(12))
}

/// The noise at the root: Gumbel samples, cut off and scaled. For numbers that are not rounded
/// it is the scale times the sample, or times 12 or -12 where the sample lies beyond.
pub fn gumbel_noise<V: Real>(samples: &Vec<V>, scale: V) -> (noises: Vec<V>)
    requires
        exact::<V>(),
    ensures
        noises@ == Seq::new(
            samples@.len(),
            |i: int| v_times(scale, cut(samples@[i])),
        ),
        forall|size: spec_fn(V) -> real, i: int|
            unrounded_order(size) && 0 <= i < samples@.len() ==> #[trigger] size(noises@[i])
                == size(scale) * (if size(samples@[i]) > 12real {
                12real
            } else if size(samples@[i]) < -12real {
                -12real
            } else {
                size(samples@[i])
            }),
{
    let ghost goal = Seq::new(
        samples@.len(),
        |i: int| v_times(scale, cut(samples@[i])),
    );
    let high: V = V::count(12);
    let low: V = high.negated();
    let mut noises: Vec<V> = Vec::new();
    for i in 0..samples.len()
        invariant
            exact::<V>(),
            high == v_count::<V>(12),
            low == v_negated::<V>(v_count(12)),
            goal == Seq::new(
                samples@.len(),
                |i: int| v_times(scale, cut(samples@[i])),
            ),
            noises@ == goal.take(i as int),
    {
        noises.push(scale.times(samples[i].larger(low).smaller(high)));
        assert(noises@ =~= goal.take(i + 1));
    }
    assert(noises@ =~= goal);
    noises
}

/// Dirichlet noise: Gamma samples divided by their sum. For numbers that are not rounded the
/// noise has the proportions of the samples and adds up to 1.
pub fn dirichlet_noise<V: Real>(samples: &Vec<V>) -> (noise: Vec<V>)
    requires
        exact::<V>(),
    ensures
        noise@ == Seq::new(samples@.len(), |i: int| v_over(samples@[i], total(samples@))),
        forall|size: spec_fn(V) -> real, i: int, j: int|
            unrounded(size) && size(total(samples@)) != 0real && 0 <= i < samples@.len() && 0 <= j
                < samples@.len() ==> #[trigger] size(noise@[i]) * size(samples@[j])
                == #[trigger] size(noise@[j]) * size(samples@[i]),
        forall|size: spec_fn(V) -> real| #[trigger]
            unrounded(size) && size(total(samples@)) != 0real ==> size(total(noise@)) == 1real,
{
    let ghost goal = Seq::new(samples@.len(), |i: int| v_over(samples@[i], total(samples@)));
    let s: V = sum(samples);
    let mut noise: Vec<V> = Vec::new();
    for i in 0..samples.len()
        invariant
            exact::<V>(),
            s == total(samples@),
            goal == Seq::new(samples@.len(), |i: int| v_over(samples@[i], total(samples@))),
            noise@ == goal.take(i as int),
    {
        noise.push(samples[i].over(s));
        assert(noise@ =~= goal.take(i + 1));
    }
    assert(noise@ =~= goal);
    proof {
        assert forall|size: spec_fn(V) -> real, i: int, j: int|
            unrounded(size) && size(total(samples@)) != 0real && 0 <= i < samples@.len() && 0 <= j
                < samples@.len() implies #[trigger] size(noise@[i]) * size(samples@[j])
            == #[trigger] size(noise@[j]) * size(samples@[i]) by {
            let x = size(samples@[i]);
            let y = size(samples@[j]);
            let s = size(total(samples@));
            assert(size(noise@[i]) == x / s && size(noise@[j]) == y / s);
            assert(x / s * y == y / s * x) by (nonlinear_arith)
                requires
                    s != 0real,
            ;
        }
        assert forall|size: spec_fn(V) -> real| #[trigger]
            unrounded(size) && size(total(samples@)) != 0real implies size(total(noise@))
            == 1real by {
            lemma_total_of_quotients(size, samples@, total(samples@));
            let s = size(total(samples@));
            assert(s / s == 1real) by (nonlinear_arith)
                requires
                    s != 0real,
            ;
        }
    }
    noise
}

/// `best` is the last place at which the number with the largest key stands.
pub open spec fn last_largest<W: Real>(probs: Seq<W>, best: int) -> bool {
    &&& 0 <= best < probs.len()
    &&& forall|i: int| 0 <= i < probs.len() ==> v_key(#[trigger] probs[i]) <= v_key(probs[best])
    &&& forall|i: int|
        best < i < probs.len() ==> v_key(#[trigger] probs[i]) < v_key(probs[best])
}

/// The action that is taken without a draw: 0 when there is no action at all, and the one
/// with the largest probability when the probabilities do not add up to anything. Otherwise
/// `None`: an action has to be drawn with these probabilities.
pub fn sure_action<W: Real>(probs: &Vec<W>) -> (action: Option<ActionId>)
    requires
        exact::<W>(),
    ensures
        probs@.len() == 0 ==> action == Some(0usize),
        probs@.len() > 0 && v_positive(total(probs@)) ==> action is None,
        probs@.len() > 0 && !v_positive(total(probs@)) ==> action is Some && last_largest(
            probs@,
            action->0 as int,
        ),
{
    if probs.len() == 0 {
        return Some(0);
    }
    if sum(probs).positive() {
        return None;
    }
    let mut best: usize = 0;
    let mut best_key: i64 = probs[0].key();
    for i in 1..probs.len()
        invariant
            exact::<W>(),
            probs@.len() > 0,
            best < i,
            best < probs@.len(),
            best_key == v_key(probs@[best as int]),
            forall|k: int| 0 <= k < i ==> v_key(#[trigger] probs@[k]) <= best_key,
            forall|k: int| best < k < i ==> v_key(#[trigger] probs@[k]) < best_key,
    {
        let key: i64 = probs[i].key();
        if key >= best_key {
            best = i;
            best_key = key;
        }
    }
    Some(best)
}

} // verus!
