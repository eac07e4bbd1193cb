//! How the learning rate falls.

use vstd::prelude::*;
use crate::number::{
    exact_curve, unrounded, unrounded_curve, v_cos, v_count, v_milli, v_minus, v_over, v_pi, v_plus,
    v_times, Curve,
};
use crate::reals::{lemma_cancel, lemma_quotient, lemma_rearrange, unrounded_waves};

verus! {

/// A learning rate that falls along a cosine from its full value to a share of it.
pub struct LrSchedule<V> {
    pub num_iterations: usize,
    /// The share that is left at the end.
    pub final_ratio: V,
}

/// The share of the learning rate that is left in an iteration: half of a cosine wave that
/// starts at 1 and reaches `final_ratio` after all iterations.
pub open spec fn lr_share<V: Curve>(
    iteration: usize,
    num_iterations: usize,
    final_ratio: V,
) -> V {
    let one = v_count::<V>(1);
    let progress = v_over(v_count(iteration), v_count(num_iterations));
    v_plus(
        final_ratio,
        v_times(
            v_times(v_minus(one, final_ratio), v_milli(500)),
            v_plus(one, v_cos(v_times(v_pi(), progress))),
        ),
    )
}

proof fn lemma_lr_share<V: Curve>(
    size: spec_fn(V) -> real,
    iteration: usize,
    num_iterations: usize,
    final_ratio: V,
) -> (turn: V)
    requires
        unrounded_curve(size),
        num_iterations >= 1,
        0real <= size(final_ratio) <= 1real,
    ensures
        size(turn) == size(v_pi()) * (iteration as real / num_iterations as real),
        size(lr_share(iteration, num_iterations, final_ratio)) == size(final_ratio) + (1real
            - size(final_ratio)) * (1real / 2real) * (1real + size(v_cos(turn))),
        size(final_ratio) <= size(lr_share(iteration, num_iterations, final_ratio)) <= 1real,
{
    let progress = v_over::<V>(v_count(iteration), v_count(num_iterations));
    let turn = v_times(v_pi(), progress);
    let part = v_times(v_minus(v_count(1), final_ratio), v_milli(500));
    let rise = v_plus(v_count(1), v_cos(turn));
    let left = 1real - size(final_ratio);
    let cos = size(v_cos(turn));
    assert(size(v_milli::<V>(500)) == 1real / 2real);
    assert(size(part) == left * (1real / 2real));
    assert(size(rise) == 1real + cos);
    assert(size(v_times(part, rise)) == left * (1real / 2real) * (1real + cos));
    assert(0real <= left * (1real / 2real) * (1real + cos) <= left) by (nonlinear_arith)
        requires
            0real <= left,
            -1real <= cos <= 1real,
    ;
    turn
}

/// From iteration to iteration the share of the learning rate falls, from 1 to `final_ratio`
/// after all iterations, and it never leaves these bounds: for numbers that are not rounded.
pub proof fn law_lr_share_falls<V: Curve>(
    size: spec_fn(V) -> real,
    i: usize,
    j: usize,
    num_iterations: usize,
    final_ratio: V,
)
    requires
        unrounded_curve(size),
        num_iterations >= 1,
        0real <= size(final_ratio) <= 1real,
    ensures
        size(lr_share(0, num_iterations, final_ratio)) == 1real,
        size(lr_share(num_iterations, num_iterations, final_ratio)) == size(final_ratio),
        size(final_ratio) <= size(lr_share(i, num_iterations, final_ratio)) <= 1real,
        i <= j <= num_iterations ==> size(lr_share(j, num_iterations, final_ratio)) <= size(
            lr_share(i, num_iterations, final_ratio),
        ),
{
    let first = lemma_lr_share(size, 0, num_iterations, final_ratio);
    let last = lemma_lr_share(size, num_iterations, num_iterations, final_ratio);
    let early = lemma_lr_share(size, i, num_iterations, final_ratio);
    let late = lemma_lr_share(size, j, num_iterations, final_ratio);
    let pi = size(v_pi());
    let left = 1real - size(final_ratio);
    let n = num_iterations as real;
    assert(pi * (0usize as real / n) == 0real) by (nonlinear_arith)
        requires
            n >= 1real,
    ;
    assert(pi * (n / n) == pi) by (nonlinear_arith)
        requires
            n >= 1real,
    ;
    assert(left * (1real / 2real) * (1real + 1real) == left) by (nonlinear_arith);
    assert(left * (1real / 2real) * (1real + -1real) == 0real) by (nonlinear_arith);
    if i <= j <= num_iterations {
        let x = i as real;
        let y = j as real;
        assert(0real <= pi * (x / n) <= pi * (y / n) <= pi) by (nonlinear_arith)
            requires
                pi > 0real,
                n >= 1real,
                0real <= x <= y <= n,
        ;
        let a = size(v_cos(early));
        let b = size(v_cos(late));
        assert(left * (1real / 2real) * (1real + b) <= left * (1real / 2real) * (1real + a))
            by (nonlinear_arith)
            requires
                left >= 0real,
                b <= a,
        ;
    }
}

/// What is left of the learning rate above the final share follows the cosine of the angle
/// that has the same part of a half turn as the iteration has of all iterations.
pub proof fn law_lr_share_follows_cosine<V: Curve>(
    size: spec_fn(V) -> real,
    raise: spec_fn(real, real) -> real,
    cosine: spec_fn(real) -> real,
    sine: spec_fn(real) -> real,
    iteration: usize,
    num_iterations: usize,
    final_ratio: V,
    turn: real,
)
    requires
        unrounded_waves(size, raise, cosine, sine),
        num_iterations >= 1,
        turn * num_iterations as real == size(v_pi()) * iteration as real,
    ensures
        2real * (size(lr_share(iteration, num_iterations, final_ratio)) - size(final_ratio)) == (
        1real - size(final_ratio)) * (1real + cosine(turn)),
{
    let progress = v_over::<V>(v_count(iteration), v_count(num_iterations));
    let angle = v_times(v_pi(), progress);
    let n = num_iterations as real;
    let i = iteration as real;
    let pi = size(v_pi());
    assert(size(angle) == pi * (i / n));
    lemma_quotient(i, n);
    lemma_rearrange(pi, i / n, n);
    lemma_cancel(size(angle), turn, n);
    let part = v_times(v_minus(v_count(1), final_ratio), v_milli(500));
    let rise = v_plus(v_count(1), v_cos(angle));
    let left = 1real - size(final_ratio);
    assert(size(v_milli::<V>(500)) == 1real / 2real);
    assert(size(part) == left * (1real / 2real));
    assert(size(rise) == 1real + cosine(turn));
    let c = 1real + cosine(turn);
    assert(2real * (left * (1real / 2real) * c) == left * c) by (nonlinear_arith);
}

impl<V: Curve> LrSchedule<V> {
    /// A schedule for so many iterations.
    pub fn new(num_iterations: usize, final_ratio: V) -> (schedule: LrSchedule<V>)
        ensures
            schedule.num_iterations == num_iterations,
            schedule.final_ratio == final_ratio,
    {
        LrSchedule { num_iterations, final_ratio }
    }

    /// The share of the learning rate that is left: see `lr_share`.
    pub fn factor(&self, iteration: usize) -> (share: V)
        requires
            exact_curve::<V>(),
        ensures
            share == lr_share(iteration, self.num_iterations, self.final_ratio),
    {
        let one: V = V::count(1);
        let progress: V = V::count(iteration).over(V::count(self.num_iterations));
        let fall: V = one.minus(self.final_ratio).times(V::milli(500)).times(
            one.plus(V::pi().times(progress).cos()),
        );
        self.final_ratio.plus(fall)
    }

    /// The learning rate in an iteration.
    pub fn lr(&self, iteration: usize, base_lr: V) -> (rate: V)
        requires
            exact_curve::<V>(),
        ensures
            rate == v_times(
                lr_share(iteration, self.num_iterations, self.final_ratio),
                base_lr,
            ),
            forall|size: spec_fn(V) -> real| #[trigger]
                unrounded(size) ==> size(rate) == size(
                    lr_share(iteration, self.num_iterations, self.final_ratio),
                ) * size(base_lr),
    {
        self.factor(iteration).times(base_lr)
    }
}

} // verus!
