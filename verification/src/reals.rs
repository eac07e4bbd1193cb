//! What the operations on numbers have in common with those of real numbers, for laws that
//! hold up to rounding.

use vstd::prelude::*;
use crate::number::{
    greatest, least, total, unrounded, v_cos, v_exp, v_highest, v_is_zero, v_key, v_larger,
    v_least_spread, v_ln, v_lowest, v_mean, v_negated, v_negligible, v_raised, v_sin, v_smaller,
    v_tiny, Curve, Real,
};

verus! {

/// `unrounded`, and numbers are compared, negated and averaged as real numbers are.
pub open spec fn unrounded_order<V: Real>(size: spec_fn(V) -> real) -> bool {
    &&& unrounded(size)
    &&& forall|a: V| size(#[trigger] v_negated(a)) == -size(a)
    &&& forall|a: V, b: V|
        size(#[trigger] v_larger(a, b)) == (if size(a) <= size(b) {
            size(b)
        } else {
            size(a)
        })
    &&& forall|a: V, b: V|
        size(#[trigger] v_smaller(a, b)) == (if size(a) <= size(b) {
            size(a)
        } else {
            size(b)
        })
    &&& forall|a: V, n: usize| n > 0 ==> size(#[trigger] v_mean(a, n)) == size(a) / n as real
    &&& forall|a: V| #[trigger] v_is_zero(a) <==> size(a) == 0real
    &&& size(v_least_spread()) > 0real
    &&& size(v_tiny()) > 0real
}

/// A number is negligible when it is no larger than `Real::tiny`.
pub open spec fn negligible_is_tiny<V: Real>(size: spec_fn(V) -> real) -> bool {
    forall|a: V| #[trigger] v_negligible(a) <==> size(a) <= size(v_tiny())
}

/// Numbers between `-bound` and `bound` that are at least `step` apart have keys in the same
/// order. There are keys enough for that.
pub open spec fn keys_resolve<V: Real>(
    size: spec_fn(V) -> real,
    bound: real,
    step: real,
) -> bool {
    &&& 0real < step
    &&& bound <= step * 4611686018427387904real
    &&& forall|a: V, b: V|
        -bound <= size(a) && size(a) + step <= size(b) && size(b) <= bound ==> #[trigger] v_key(a)
            < #[trigger] v_key(b)
}

/// `power` turns sums into products, and lies above its tangent at 0: it is the exponential
/// function.
#[verifier::opaque]
pub open spec fn is_exponential(power: spec_fn(real) -> real) -> bool {
    &&& forall|x: real, y: real|
        #![trigger power(x), power(y)]
        power(x + y) == power(x) * power(y)
    &&& forall|x: real| #[trigger] power(x) >= 1real + x
    &&& forall|x: real| #[trigger] power(x) > 0real
}

/// `unrounded_order`, with the exponential function `power` and its inverse.
pub open spec fn unrounded_exp<V: Real>(
    size: spec_fn(V) -> real,
    power: spec_fn(real) -> real,
) -> bool {
    &&& unrounded_order(size)
    &&& is_exponential(power)
    &&& forall|a: V| size(#[trigger] v_exp(a)) == power(size(a))
    &&& forall|a: V| size(a) > 0real ==> power(size(#[trigger] v_ln(a))) == size(a)
}

/// `raise` raises positive numbers to powers: sums of exponents give products, the exponent 1
/// gives the number itself, and a number above 1 grows with its exponent.
#[verifier::opaque]
pub open spec fn is_power(raise: spec_fn(real, real) -> real) -> bool {
    &&& forall|b: real, x: real, y: real|
        #![trigger raise(b, x), raise(b, y)]
        b > 0real ==> raise(b, x + y) == raise(b, x) * raise(b, y)
    &&& forall|b: real| b > 0real ==> #[trigger] raise(b, 1real) == b
    &&& forall|b: real, x: real| b > 0real ==> #[trigger] raise(b, x) > 0real
    &&& forall|b: real, x: real, y: real|
        b > 1real && x < y ==> #[trigger] raise(b, x) < #[trigger] raise(b, y)
}

/// `unrounded_order`, with powers as `raise` gives them, and cosines and sines of real numbers.
pub open spec fn unrounded_waves<V: Curve>(
    size: spec_fn(V) -> real,
    raise: spec_fn(real, real) -> real,
    cosine: spec_fn(real) -> real,
    sine: spec_fn(real) -> real,
) -> bool {
    &&& unrounded_order(size)
    &&& is_power(raise)
    &&& forall|a: V, b: V|
        size(a) > 0real ==> size(#[trigger] v_raised(a, b)) == raise(size(a), size(b))
    &&& forall|a: V| size(#[trigger] v_cos(a)) == cosine(size(a))
    &&& forall|a: V| size(#[trigger] v_sin(a)) == sine(size(a))
}

pub proof fn lemma_power_of_sum(power: spec_fn(real) -> real, x: real, y: real)
    requires
        is_exponential(power),
    ensures
        power(x + y) == power(x) * power(y),
        power(x) > 0real,
        power(x) >= 1real + x,
{
    reveal(is_exponential);
    assert(power(x + y) == power(x) * power(y));
}

pub proof fn lemma_power_of_difference(power: spec_fn(real) -> real, x: real, y: real)
    requires
        is_exponential(power),
    ensures
        power(x - y) * power(y) == power(x),
        power(x - y) > 0real,
        power(y) > 0real,
{
    lemma_power_of_sum(power, x - y, y);
    lemma_power_of_sum(power, y, 0real);
    assert(x - y + y == x);
}

pub proof fn lemma_power_grows(power: spec_fn(real) -> real, x: real, y: real)
    requires
        is_exponential(power),
        x < y,
    ensures
        0real < power(x) < power(y),
{
    lemma_power_of_difference(power, y, x);
    lemma_power_of_sum(power, y - x, 0real);
    let a = power(y - x);
    let b = power(x);
    assert(a * b > b) by (nonlinear_arith)
        requires
            a > 1real,
            b > 0real,
    ;
}

pub proof fn lemma_raise_sum(raise: spec_fn(real, real) -> real, b: real, x: real, y: real)
    requires
        is_power(raise),
        b > 0real,
    ensures
        raise(b, x + y) == raise(b, x) * raise(b, y),
        raise(b, x) > 0real,
        raise(b, y) > 0real,
        raise(b, 1real) == b,
        b > 1real && x < y ==> raise(b, x) < raise(b, y),
{
    reveal(is_power);
    assert(raise(b, x + y) == raise(b, x) * raise(b, y));
    assert(raise(b, 1real) == b);
}

pub proof fn lemma_raise_zero(raise: spec_fn(real, real) -> real, b: real)
    requires
        is_power(raise),
        b > 0real,
    ensures
        raise(b, 0real) == 1real,
{
    lemma_raise_sum(raise, b, 0real, 0real);
    assert(0real + 0real == 0real);
    let r = raise(b, 0real);
    assert(r == 1real) by (nonlinear_arith)
        requires
            r == r * r,
            r > 0real,
    ;
}

/// The largest of numbers is one of them, and none lies above it.
pub proof fn lemma_greatest<V: Real>(size: spec_fn(V) -> real, items: Seq<V>)
    requires
        unrounded_order(size),
        items.len() > 0,
        forall|i: int| 0 <= i < items.len() ==> size(v_lowest()) <= size(#[trigger] items[i]),
    ensures
        forall|i: int| 0 <= i < items.len() ==> size(#[trigger] items[i]) <= size(greatest(items)),
        exists|i: int| 0 <= i < items.len() && size(#[trigger] items[i]) == size(greatest(items)),
    decreases items.len(),
{
    let rest = items.drop_last();
    let last = items.len() - 1;
    assert(size(v_lowest()) <= size(items[last]));
    if rest.len() > 0 {
        assert forall|i: int| 0 <= i < rest.len() implies size(v_lowest()) <= size(
            #[trigger] rest[i],
        ) by {
            assert(rest[i] == items[i]);
        }
        lemma_greatest(size, rest);
        let k = choose|k: int|
            0 <= k < rest.len() && size(#[trigger] rest[k]) == size(greatest(rest));
        assert(items[k] == rest[k]);
        assert forall|i: int| 0 <= i < items.len() implies size(#[trigger] items[i]) <= size(
            greatest(items),
        ) by {
            if i < last {
                assert(rest[i] == items[i]);
            }
        }
    } else {
        assert(greatest(rest) == v_lowest::<V>());
        assert(size(items[0]) == size(greatest(items)));
    }
}

/// The smallest of numbers is one of them, and none lies below it.
pub proof fn lemma_least<V: Real>(size: spec_fn(V) -> real, items: Seq<V>)
    requires
        unrounded_order(size),
        items.len() > 0,
        forall|i: int| 0 <= i < items.len() ==> size(#[trigger] items[i]) <= size(v_highest()),
    ensures
        forall|i: int| 0 <= i < items.len() ==> size(least(items)) <= size(#[trigger] items[i]),
        exists|i: int| 0 <= i < items.len() && size(#[trigger] items[i]) == size(least(items)),
    decreases items.len(),
{
    let rest = items.drop_last();
    let last = items.len() - 1;
    assert(size(items[last]) <= size(v_highest()));
    if rest.len() > 0 {
        assert forall|i: int| 0 <= i < rest.len() implies size(#[trigger] rest[i]) <= size(
            v_highest(),
        ) by {
            assert(rest[i] == items[i]);
        }
        lemma_least(size, rest);
        let k = choose|k: int| 0 <= k < rest.len() && size(#[trigger] rest[k]) == size(least(rest));
        assert(items[k] == rest[k]);
        assert forall|i: int| 0 <= i < items.len() implies size(least(items)) <= size(
            #[trigger] items[i],
        ) by {
            if i < last {
                assert(rest[i] == items[i]);
            }
        }
    } else {
        assert(least(rest) == v_highest::<V>());
        assert(size(items[0]) == size(least(items)));
    }
}

/// Positive numbers have a positive sum.
pub proof fn lemma_total_positive<V: Real>(size: spec_fn(V) -> real, items: Seq<V>)
    requires
        unrounded(size),
        forall|i: int| 0 <= i < items.len() ==> size(#[trigger] items[i]) > 0real,
    ensures
        size(total(items)) >= 0real,
        items.len() > 0 ==> size(total(items)) > 0real,
    decreases items.len(),
{
    if items.len() > 0 {
        let rest = items.drop_last();
        assert forall|i: int| 0 <= i < rest.len() implies size(#[trigger] rest[i]) > 0real by {
            assert(rest[i] == items[i]);
        }
        lemma_total_positive(size, rest);
        assert(size(items[items.len() - 1]) > 0real);
    }
}

/// Dividing two numbers by the same one keeps their ratio.
pub proof fn lemma_same_ratio(a: real, b: real, s: real)
    requires
        s > 0real,
    ensures
        (a / s) * b == (b / s) * a,
        a > 0real ==> a / s > 0real,
{
    assert((a / s) * b == (b / s) * a) by (nonlinear_arith)
        requires
            s > 0real,
    ;
    if a > 0real {
        assert(a / s > 0real) by (nonlinear_arith)
            requires
                s > 0real,
                a > 0real,
        ;
    }
}

/// Products with the same positive factor are ordered as the other factors.
pub proof fn lemma_cancel(a: real, b: real, s: real)
    requires
        s > 0real,
    ensures
        a * s == b * s ==> a == b,
        a * s <= b * s ==> a <= b,
        a * s < b * s ==> a < b,
        a <= b ==> a * s <= b * s,
        a < b ==> a * s < b * s,
{
    if a < b {
        assert(a * s < b * s) by (nonlinear_arith)
            requires
                a < b,
                s > 0real,
        ;
    } else if b < a {
        assert(b * s < a * s) by (nonlinear_arith)
            requires
                b < a,
                s > 0real,
        ;
    }
}

/// Differences of products with a common factor.
pub proof fn lemma_distribute(a: real, b: real, s: real)
    ensures
        (a - b) * s == a * s - b * s,
        s * (a - b) == s * a - s * b,
        (a + b) * s == a * s + b * s,
        s * (a + b) == s * a + s * b,
        a * s == s * a,
{
    assert((a - b) * s == a * s - b * s) by (nonlinear_arith);
    assert(s * (a - b) == s * a - s * b) by (nonlinear_arith);
    assert((a + b) * s == a * s + b * s) by (nonlinear_arith);
    assert(s * (a + b) == s * a + s * b) by (nonlinear_arith);
    assert(a * s == s * a) by (nonlinear_arith);
}

/// A quotient times its divisor.
pub proof fn lemma_quotient(a: real, s: real)
    requires
        s != 0real,
    ensures
        a / s * s == a,
{
    assert(a / s * s == a) by (nonlinear_arith)
        requires
            s != 0real,
    ;
}

/// Factors in another order.
pub proof fn lemma_rearrange(a: real, b: real, c: real)
    ensures
        (a * b) * c == (a * c) * b,
        (a * b) * c == a * (b * c),
        a * b == b * a,
{
    assert((a * b) * c == (a * c) * b) by (nonlinear_arith);
    assert((a * b) * c == a * (b * c)) by (nonlinear_arith);
    assert(a * b == b * a) by (nonlinear_arith);
}

} // verus!
