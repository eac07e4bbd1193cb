//! Numbers that the library calculates with without knowing how.

use vstd::prelude::*;

verus! {

/// The numbers that a search attaches to nodes. What the operations compute is up to the
/// implementation.
pub trait Score: Copy {
    /// The value of a node that nothing is known of.
    fn zero() -> Self;

    /// The sum of two values.
    fn plus(self, other: Self) -> Self;

    /// The mean of `count` values that sum up to `self`.
    fn mean(self, count: usize) -> Self;

    /// The number with the opposite sign.
    fn negated(self) -> Self;
}

/// Numbers with which a search can calculate.
pub trait Real: Score {
    /// The difference of two numbers.
    fn minus(self, other: Self) -> Self;

    /// The product of two numbers.
    fn times(self, other: Self) -> Self;

    /// The quotient of two numbers.
    fn over(self, other: Self) -> Self;

    /// The exponential of a number.
    fn exp(self) -> Self;

    /// The natural logarithm of a number.
    fn ln(self) -> Self;

    /// The larger of two numbers.
    fn larger(self, other: Self) -> Self;

    /// The smaller of two numbers.
    fn smaller(self, other: Self) -> Self;

    /// The number is above zero.
    fn positive(self) -> bool;

    /// The number is zero.
    fn is_zero(self) -> bool;

    /// The number is too small a weight to divide by.
    fn negligible(self) -> bool;

    /// The number is too small a variance to divide by.
    fn vanishing(self) -> bool;

    /// A count as a number.
    fn count(n: usize) -> Self;

    /// A fraction that is given in thousandths.
    fn milli(n: u32) -> Self;

    /// A number below all others.
    fn lowest() -> Self;

    /// A number above all others.
    fn highest() -> Self;

    /// The score of a child that is not considered.
    fn low() -> Self;

    /// The least spread by which values are divided.
    fn least_spread() -> Self;

    /// The least probability of which a logarithm is taken.
    fn tiny() -> Self;

    /// An integer that orders numbers as they are ordered.
    fn key(self) -> i64;
}

/// Numbers with which schedules, ratings and angles are calculated.
pub trait Curve: Real {
    /// The number raised to a power.
    fn raised(self, power: Self) -> Self;

    /// The cosine of an angle.
    fn cos(self) -> Self;

    /// The sine of an angle.
    fn sin(self) -> Self;

    /// The angle of a half turn.
    fn pi() -> Self;
}

/// What `Curve::raised` gives.
pub open spec fn v_raised<V: Curve>(a: V, b: V) -> V {
    choose|r: V| V::raised.ensures((a, b), r)
}

/// What `Curve::cos` gives.
pub open spec fn v_cos<V: Curve>(a: V) -> V {
    choose|r: V| V::cos.ensures((a,), r)
}

/// What `Curve::sin` gives.
pub open spec fn v_sin<V: Curve>(a: V) -> V {
    choose|r: V| V::sin.ensures((a,), r)
}

/// What `Curve::pi` gives.
pub open spec fn v_pi<V: Curve>() -> V {
    choose|r: V| V::pi.ensures((), r)
}

/// The operations are functions: the same numbers give the same result every time.
pub open spec fn exact_curve<V: Curve>() -> bool {
    &&& exact::<V>()
    &&& forall|a: V, b: V, r: V| #[trigger] V::raised.ensures((a, b), r) ==> r == v_raised(a, b)
    &&& forall|a: V, r: V| #[trigger] V::cos.ensures((a,), r) ==> r == v_cos(a)
    &&& forall|a: V, r: V| #[trigger] V::sin.ensures((a,), r) ==> r == v_sin(a)
    &&& forall|r: V| #[trigger] V::pi.ensures((), r) ==> r == v_pi::<V>()
}

/// What `Score::zero` gives.
pub open spec fn v_zero<V: Score>() -> V {
    choose|r: V| V::zero.ensures((), r)
}

/// What `Score::plus` gives.
pub open spec fn v_plus<V: Score>(a: V, b: V) -> V {
    choose|r: V| V::plus.ensures((a, b), r)
}

/// What `Score::mean` gives.
pub open spec fn v_mean<V: Score>(a: V, n: usize) -> V {
    choose|r: V| V::mean.ensures((a, n), r)
}

/// What `Score::negated` gives.
pub open spec fn v_negated<V: Score>(a: V) -> V {
    choose|r: V| V::negated.ensures((a,), r)
}

/// What `Real::minus` gives.
pub open spec fn v_minus<V: Real>(a: V, b: V) -> V {
    choose|r: V| V::minus.ensures((a, b), r)
}

/// What `Real::times` gives.
pub open spec fn v_times<V: Real>(a: V, b: V) -> V {
    choose|r: V| V::times.ensures((a, b), r)
}

/// What `Real::over` gives.
pub open spec fn v_over<V: Real>(a: V, b: V) -> V {
    choose|r: V| V::over.ensures((a, b), r)
}

/// What `Real::exp` gives.
pub open spec fn v_exp<V: Real>(a: V) -> V {
    choose|r: V| V::exp.ensures((a,), r)
}

/// What `Real::ln` gives.
pub open spec fn v_ln<V: Real>(a: V) -> V {
    choose|r: V| V::ln.ensures((a,), r)
}

/// What `Real::larger` gives.
pub open spec fn v_larger<V: Real>(a: V, b: V) -> V {
    choose|r: V| V::larger.ensures((a, b), r)
}

/// What `Real::smaller` gives.
pub open spec fn v_smaller<V: Real>(a: V, b: V) -> V {
    choose|r: V| V::smaller.ensures((a, b), r)
}

/// What `Real::positive` gives.
pub open spec fn v_positive<V: Real>(a: V) -> bool {
    choose|r: bool| V::positive.ensures((a,), r)
}

/// What `Real::is_zero` gives.
pub open spec fn v_is_zero<V: Real>(a: V) -> bool {
    choose|r: bool| V::is_zero.ensures((a,), r)
}

/// What `Real::negligible` gives.
pub open spec fn v_negligible<V: Real>(a: V) -> bool {
    choose|r: bool| V::negligible.ensures((a,), r)
}

/// What `Real::vanishing` gives.
pub open spec fn v_vanishing<V: Real>(a: V) -> bool {
    choose|r: bool| V::vanishing.ensures((a,), r)
}

/// What `Real::count` gives.
pub open spec fn v_count<V: Real>(n: usize) -> V {
    choose|r: V| V::count.ensures((n,), r)
}

/// What `Real::milli` gives.
pub open spec fn v_milli<V: Real>(n: u32) -> V {
    choose|r: V| V::milli.ensures((n,), r)
}

/// What `Real::lowest` gives.
pub open spec fn v_lowest<V: Real>() -> V {
    choose|r: V| V::lowest.ensures((), r)
}

/// What `Real::highest` gives.
pub open spec fn v_highest<V: Real>() -> V {
    choose|r: V| V::highest.ensures((), r)
}

/// What `Real::low` gives.
pub open spec fn v_low<V: Real>() -> V {
    choose|r: V| V::low.ensures((), r)
}

/// What `Real::least_spread` gives.
pub open spec fn v_least_spread<V: Real>() -> V {
    choose|r: V| V::least_spread.ensures((), r)
}

/// What `Real::tiny` gives.
pub open spec fn v_tiny<V: Real>() -> V {
    choose|r: V| V::tiny.ensures((), r)
}

/// What `Real::key` gives.
pub open spec fn v_key<V: Real>(a: V) -> i64 {
    choose|r: i64| V::key.ensures((a,), r)
}

/// The operations are functions: the same numbers give the same result every time.
pub open spec fn exact<V: Real>() -> bool {
    &&& forall|r: V| #[trigger] V::zero.ensures((), r) ==> r == v_zero::<V>()
    &&& forall|a: V, b: V, r: V| #[trigger] V::plus.ensures((a, b), r) ==> r == v_plus(a, b)
    &&& forall|a: V, n: usize, r: V| #[trigger]
        V::mean.ensures((a, n), r) ==> r == v_mean(a, n)
    &&& forall|a: V, r: V| #[trigger] V::negated.ensures((a,), r) ==> r == v_negated(a)
    &&& forall|a: V, b: V, r: V| #[trigger] V::minus.ensures((a, b), r) ==> r == v_minus(a, b)
    &&& forall|a: V, b: V, r: V| #[trigger] V::times.ensures((a, b), r) ==> r == v_times(a, b)
    &&& forall|a: V, b: V, r: V| #[trigger] V::over.ensures((a, b), r) ==> r == v_over(a, b)
    &&& forall|a: V, r: V| #[trigger] V::exp.ensures((a,), r) ==> r == v_exp(a)
    &&& forall|a: V, r: V| #[trigger] V::ln.ensures((a,), r) ==> r == v_ln(a)
    &&& forall|a: V, b: V, r: V| #[trigger] V::larger.ensures((a, b), r) ==> r == v_larger(a, b)
    &&& forall|a: V, b: V, r: V| #[trigger]
        V::smaller.ensures((a, b), r) ==> r == v_smaller(a, b)
    &&& forall|a: V, r: bool| #[trigger] V::positive.ensures((a,), r) ==> r == v_positive(a)
    &&& forall|a: V, r: bool| #[trigger] V::is_zero.ensures((a,), r) ==> r == v_is_zero(a)
    &&& forall|a: V, r: bool| #[trigger] V::negligible.ensures((a,), r) ==> r == v_negligible(a)
    &&& forall|a: V, r: bool| #[trigger] V::vanishing.ensures((a,), r) ==> r == v_vanishing(a)
    &&& forall|n: usize, r: V| #[trigger] V::count.ensures((n,), r) ==> r == v_count::<V>(n)
    &&& forall|n: u32, r: V| #[trigger] V::milli.ensures((n,), r) ==> r == v_milli::<V>(n)
    &&& forall|r: V| #[trigger] V::lowest.ensures((), r) ==> r == v_lowest::<V>()
    &&& forall|r: V| #[trigger] V::highest.ensures((), r) ==> r == v_highest::<V>()
    &&& forall|r: V| #[trigger] V::low.ensures((), r) ==> r == v_low::<V>()
    &&& forall|r: V| #[trigger] V::least_spread.ensures((), r) ==> r == v_least_spread::<V>()
    &&& forall|r: V| #[trigger] V::tiny.ensures((), r) ==> r == v_tiny::<V>()
    &&& forall|a: V, r: i64| #[trigger] V::key.ensures((a,), r) ==> r == v_key(a)
}

/// The numbers stand for the real numbers that `size` gives, and the operations are those of
/// real numbers. What follows from this holds of numbers that are rounded up to rounding.
pub open spec fn unrounded<V: Real>(size: spec_fn(V) -> real) -> bool {
    &&& size(v_zero()) == 0real
    &&& forall|a: V, b: V| size(#[trigger] v_plus(a, b)) == size(a) + size(b)
    &&& forall|a: V, b: V| size(#[trigger] v_minus(a, b)) == size(a) - size(b)
    &&& forall|a: V, b: V| size(#[trigger] v_times(a, b)) == size(a) * size(b)
    &&& forall|a: V, b: V|
        size(b) != 0real ==> size(#[trigger] v_over(a, b)) == size(a) / size(b)
    &&& forall|n: usize| size(#[trigger] v_count(n)) == n as real
    &&& forall|n: u32| size(#[trigger] v_milli(n)) == n as real / 1000real
    &&& forall|a: V| #[trigger] v_positive(a) <==> size(a) > 0real
    &&& forall|a: V| !#[trigger] v_negligible(a) ==> size(a) > 0real
}

/// `unrounded`, and the cosine is that of real numbers as far as it falls: it lies between 1
/// and -1, and from the angle 0 to a half turn it falls from 1 to -1.
pub open spec fn unrounded_curve<V: Curve>(size: spec_fn(V) -> real) -> bool {
    &&& unrounded(size)
    &&& size(v_pi()) > 0real
    &&& forall|a: V| -1real <= size(#[trigger] v_cos(a)) <= 1real
    &&& forall|a: V| size(a) == 0real ==> size(#[trigger] v_cos(a)) == 1real
    &&& forall|a: V| size(a) == size(v_pi()) ==> size(#[trigger] v_cos(a)) == -1real
    &&& forall|a: V, b: V|
        0real <= size(a) <= size(b) <= size(v_pi()) ==> size(#[trigger] v_cos(b)) <= size(
            #[trigger] v_cos(a),
        )
}

/// The sum of numbers, from the first to the last.
pub open spec fn total<V: Score>(items: Seq<V>) -> V
    decreases items.len(),
{
    if items.len() == 0 {
        v_zero()
    } else {
        v_plus(total(items.drop_last()), items.last())
    }
}

/// The sum of numbers.
pub fn sum<V: Real>(items: &Vec<V>) -> (s: V)
    requires
        exact::<V>(),
    ensures
        s == total(items@),
{
    let mut s: V = V::zero();
    assert(items@.take(0) =~= Seq::empty());
    for i in 0..items.len()
        invariant
            exact::<V>(),
            s == total(items@.take(i as int)),
    {
        assert(items@.take(i + 1).drop_last() =~= items@.take(i as int));
        s = s.plus(items[i]);
    }
    assert(items@.take(items@.len() as int) =~= items@);
    s
}

/// The largest of numbers.
pub open spec fn greatest<V: Real>(items: Seq<V>) -> V
    decreases items.len(),
{
    if items.len() == 0 {
        v_lowest()
    } else {
        v_larger(greatest(items.drop_last()), items.last())
    }
}

/// The smallest of numbers.
pub open spec fn least<V: Real>(items: Seq<V>) -> V
    decreases items.len(),
{
    if items.len() == 0 {
        v_highest()
    } else {
        v_smaller(least(items.drop_last()), items.last())
    }
}

pub(crate) fn greatest_of<V: Real>(items: &Vec<V>) -> (most: V)
    requires
        exact::<V>(),
    ensures
        most == greatest(items@),
{
    let mut most: V = V::lowest();
    assert(items@.take(0) =~= Seq::empty());
    for i in 0..items.len()
        invariant
            exact::<V>(),
            most == greatest(items@.take(i as int)),
    {
        assert(items@.take(i + 1).drop_last() =~= items@.take(i as int));
        most = most.larger(items[i]);
    }
    assert(items@.take(items@.len() as int) =~= items@);
    most
}

pub(crate) fn least_of<V: Real>(items: &Vec<V>) -> (fewest: V)
    requires
        exact::<V>(),
    ensures
        fewest == least(items@),
{
    let mut fewest: V = V::highest();
    assert(items@.take(0) =~= Seq::empty());
    for i in 0..items.len()
        invariant
            exact::<V>(),
            fewest == least(items@.take(i as int)),
    {
        assert(items@.take(i + 1).drop_last() =~= items@.take(i as int));
        fewest = fewest.smaller(items[i]);
    }
    assert(items@.take(items@.len() as int) =~= items@);
    fewest
}

} // verus!
