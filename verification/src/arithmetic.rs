//! The floating-point operations that the statistics are made of.

use crate::double::{has_quotient, is_value, total, unit, Double, HUNDRED_BITS, TWO_BITS};
use vstd::arithmetic::power2::lemma_pow2_pos;
use vstd::prelude::*;

verus! {

/// Floating-point arithmetic, as the caller performs it. Nothing is assumed of the
/// results: contracts say which operation is applied to which numbers, through
/// `call_ensures`, and where its result goes.
pub trait Arithmetic {
    /// `a + b`.
    fn plus(&self, a: Double, b: Double) -> Double;

    /// `a * b`.
    fn times(&self, a: Double, b: Double) -> Double;

    /// `a / b`.
    fn over(&self, a: Double, b: Double) -> Double;

    /// The square root of `a`.
    fn square_root(&self, a: Double) -> Double;

    /// The number nearest to `n`.
    fn from_count(&self, n: u128) -> Double;

    /// The sum of `values`.
    fn sum(&self, values: &[Double]) -> Double;

    /// The arithmetic mean of `values`.
    fn mean(&self, values: &[Double]) -> Double
        requires
            values@.len() > 0,
    ;

    /// The standard deviation of the sample `values`, with one degree of freedom
    /// taken off.
    fn std_dev(&self, values: &[Double]) -> Double
        requires
            values@.len() > 0,
    ;

    /// `a` in decimal, with the given number of decimals.
    fn fixed(&self, a: Double, decimals: usize) -> String;
}

/// Whether `r` is a sum of `values`.
pub open spec fn is_sum<A: Arithmetic>(arith: &A, values: Seq<Double>, r: Double) -> bool {
    exists|v: &[Double]| v@ == values && #[trigger] call_ensures(A::sum, (arith, v), r)
}

/// Whether `r` is a mean of `values`.
pub open spec fn is_mean<A: Arithmetic>(arith: &A, values: Seq<Double>, r: Double) -> bool {
    exists|v: &[Double]| v@ == values && #[trigger] call_ensures(A::mean, (arith, v), r)
}

/// Whether `r` is a standard deviation of `values`.
pub open spec fn is_std_dev<A: Arithmetic>(arith: &A, values: Seq<Double>, r: Double) -> bool {
    exists|v: &[Double]| v@ == values && #[trigger] call_ensures(A::std_dev, (arith, v), r)
}

/// Whether `r` is `a + b`.
pub open spec fn is_plus<A: Arithmetic>(arith: &A, a: Double, b: Double, r: Double) -> bool {
    call_ensures(A::plus, (arith, a, b), r)
}

/// Whether `r` is `a * b`.
pub open spec fn is_times<A: Arithmetic>(arith: &A, a: Double, b: Double, r: Double) -> bool {
    call_ensures(A::times, (arith, a, b), r)
}

/// Whether `r` is `a / b`.
pub open spec fn is_over<A: Arithmetic>(arith: &A, a: Double, b: Double, r: Double) -> bool {
    call_ensures(A::over, (arith, a, b), r)
}

/// Whether `r` is the square root of `a`.
pub open spec fn is_square_root<A: Arithmetic>(arith: &A, a: Double, r: Double) -> bool {
    call_ensures(A::square_root, (arith, a), r)
}

/// Whether `r` is the number nearest to `n`.
pub open spec fn is_count<A: Arithmetic>(arith: &A, n: int, r: Double) -> bool {
    call_ensures(A::from_count, (arith, n as u128), r)
}

/// Whether `s` is `a` with the given number of decimals.
pub open spec fn is_fixed<A: Arithmetic>(
    arith: &A,
    a: Double,
    decimals: int,
    s: Seq<char>,
) -> bool {
    exists|t: String| t@ == s && #[trigger] call_ensures(A::fixed, (arith, a, decimals as usize), t)
}

/// Whether `r` is `(a + b) / 2`.
pub open spec fn is_midpoint<A: Arithmetic>(arith: &A, a: Double, b: Double, r: Double) -> bool {
    exists|s: Double| #[trigger]
        is_plus(arith, a, b, s) && is_over(arith, s, Double { bits: TWO_BITS }, r)
}

/// Whether `r` is `a / b * 100`.
pub open spec fn is_percentage<A: Arithmetic>(arith: &A, a: Double, b: Double, r: Double) -> bool {
    exists|q: Double| #[trigger]
        is_over(arith, a, b, q) && is_times(arith, q, Double { bits: HUNDRED_BITS }, r)
}

/// Whether `r` is the sum of `values` over their count.
pub open spec fn is_plain_mean<A: Arithmetic>(arith: &A, values: Seq<Double>, r: Double) -> bool {
    exists|s: Double, n: Double| #[trigger]
        is_sum(arith, values, s) && #[trigger] is_count(arith, values.len() as int, n) && is_over(
            arith,
            s,
            n,
            r,
        )
}

/// Whether adding `values` to `start`, one after the other, ends in `r`.
pub open spec fn is_running_sum<A: Arithmetic>(
    arith: &A,
    start: Double,
    values: Seq<Double>,
    r: Double,
) -> bool
    decreases values.len(),
{
    if values.len() == 0 {
        r == start
    } else {
        exists|s: Double| #[trigger]
            is_plus(arith, s, values.last(), r) && is_running_sum(
                arith,
                start,
                values.drop_last(),
                s,
            )
    }
}

/// Whether equal operations on equal numbers have equal results, as far as the statistics
/// of a sample rest on them.
pub open spec fn is_consistent<A: Arithmetic>(arith: &A) -> bool {
    &&& forall|values: Seq<Double>, r: Double, r2: Double| #[trigger]
        is_mean(arith, values, r) && #[trigger] is_mean(arith, values, r2) ==> r == r2
    &&& forall|values: Seq<Double>, r: Double, r2: Double| #[trigger]
        is_std_dev(arith, values, r) && #[trigger] is_std_dev(arith, values, r2) ==> r == r2
    &&& forall|a: Double, b: Double, r: Double, r2: Double| #[trigger]
        is_plus(arith, a, b, r) && #[trigger] is_plus(arith, a, b, r2) ==> r == r2
    &&& forall|a: Double, b: Double, r: Double, r2: Double| #[trigger]
        is_times(arith, a, b, r) && #[trigger] is_times(arith, a, b, r2) ==> r == r2
    &&& forall|a: Double, b: Double, r: Double, r2: Double| #[trigger]
        is_over(arith, a, b, r) && #[trigger] is_over(arith, a, b, r2) ==> r == r2
}

/// `(a + b) / 2`.
pub fn midpoint<A: Arithmetic>(arith: &A, a: Double, b: Double) -> (r: Double)
    ensures
        is_midpoint(arith, a, b, r),
{
    let s = arith.plus(a, b);
    assert(is_plus(arith, a, b, s));
    arith.over(s, Double { bits: TWO_BITS })
}

/// `a / b * 100`.
pub fn percentage<A: Arithmetic>(arith: &A, a: Double, b: Double) -> (r: Double)
    ensures
        is_percentage(arith, a, b, r),
{
    let q = arith.over(a, b);
    assert(is_over(arith, a, b, q));
    arith.times(q, Double { bits: HUNDRED_BITS })
}

/// The sum of `values` over their count.
pub fn plain_mean<A: Arithmetic>(arith: &A, values: &[Double]) -> (r: Double)
    ensures
        is_plain_mean(arith, values@, r),
{
    let s = arith.sum(values);
    let n = arith.from_count(values.len() as u128);
    assert(is_sum(arith, values@, s));
    assert(is_count(arith, values@.len() as int, n));
    arith.over(s, n)
}

/// Adds `values` to `start`, one after the other.
pub fn running_sum<A: Arithmetic>(arith: &A, start: Double, values: &[Double]) -> (r: Double)
    ensures
        is_running_sum(arith, start, values@, r),
{
    let mut r = start;
    let mut i: usize = 0;
    while i < values.len()
        invariant
            i <= values.len(),
            is_running_sum(arith, start, values@.take(i as int), r),
        decreases values.len() - i,
    {
        let s = arith.plus(r, values[i]);
        proof {
            let longer = values@.take(i + 1);
            assert(longer.drop_last() =~= values@.take(i as int));
            assert(is_running_sum(arith, start, longer.drop_last(), r));
            assert(is_plus(arith, r, longer.last(), s));
        }
        r = s;
        i = i + 1;
    }
    assert(values@.take(values.len() as int) =~= values@);
    r
}

/// Whether the single operations are exact wherever they can be: where a finite number
/// has the true value of the result, the result has it. Correct rounding entails this.
pub open spec fn is_faithful<A: Arithmetic>(arith: &A) -> bool {
    &&& forall|a: Double, b: Double, r: Double| #[trigger]
        call_ensures(A::plus, (arith, a, b), r) && a.finite() && b.finite() && is_value(
            a.value() + b.value(),
        ) ==> r.finite() && r.value() == a.value() + b.value()
    &&& forall|a: Double, b: Double, r: Double| #[trigger]
        call_ensures(A::times, (arith, a, b), r) && a.finite() && b.finite() && has_quotient(
            a.value() * b.value(),
            unit(),
        ) ==> r.finite() && r.value() * unit() == a.value() * b.value()
    &&& forall|a: Double, b: Double, r: Double| #[trigger]
        call_ensures(A::over, (arith, a, b), r) && a.finite() && b.finite() && b.value() != 0
            && has_quotient(a.value() * unit(), b.value()) ==> r.finite() && r.value() * b.value()
            == a.value() * unit()
    &&& forall|n: u128, r: Double| #[trigger]
        call_ensures(A::from_count, (arith, n), r) && is_value(n * unit()) ==> r.finite()
            && r.value() == n * unit()
}

/// Whether `r` is what `plain_mean` gives for `values`.
pub open spec fn is_averaged<A: Arithmetic>(arith: &A, values: Seq<Double>, r: Double) -> bool {
    exists|v: &[Double]| v@ == values && #[trigger] call_ensures(plain_mean::<A>, (arith, v), r)
}

/// Whether the sum of `values` is exact.
pub open spec fn sums_exactly<A: Arithmetic>(arith: &A, values: Seq<Double>) -> bool {
    forall|v: &[Double], r: Double| #[trigger]
        call_ensures(A::sum, (arith, v), r) && v@ == values ==> r.finite() && r.value() == total(
            values,
        )
}

/// Whether the mean of `values` is exact.
pub open spec fn averages_exactly<A: Arithmetic>(arith: &A, values: Seq<Double>) -> bool {
    forall|v: &[Double], r: Double| #[trigger]
        call_ensures(A::mean, (arith, v), r) && v@ == values ==> r.finite() && r.value()
            * values.len() == total(values)
}

/// Whether the standard deviation of `values` has the value `dev`.
pub open spec fn deviates_exactly<A: Arithmetic>(
    arith: &A,
    values: Seq<Double>,
    dev: int,
) -> bool {
    forall|v: &[Double], r: Double| #[trigger]
        call_ensures(A::std_dev, (arith, v), r) && v@ == values ==> r.finite() && r.value() == dev
}

/// Whether `(a + b) / 2`, computed of two numbers of the values `a` and `b`, lies between
/// them.
pub open spec fn halves_between<A: Arithmetic>(arith: &A, a: int, b: int) -> bool {
    forall|x: Double, y: Double, s: Double, m: Double, two: Double|
        {
            &&& #[trigger] call_ensures(A::plus, (arith, x, y), s)
            &&& #[trigger] call_ensures(A::over, (arith, s, two), m)
            &&& x.value() == a
            &&& y.value() == b
            &&& !x.nan()
            &&& !y.nan()
            &&& two.value() == 2 * unit()
            &&& !two.nan()
        } ==> a <= m.value() <= b && !m.nan()
}

/// The sum of `values` over their count, where sum and quotient are exact: times the
/// count it is the sum.
pub proof fn lemma_plain_mean_exact<A: Arithmetic>(arith: &A, values: &[Double], r: Double)
    requires
        call_ensures(plain_mean::<A>, (arith, values), r),
        0 < values@.len() <= usize::MAX,
        is_faithful(arith),
        sums_exactly(arith, values@),
        is_value(values@.len() * unit()),
        has_quotient(total(values@), values@.len() as int),
    ensures
        r.finite(),
        r.value() * values@.len() == total(values@),
{
    lemma_plain_mean_value(arith, values@, r);
}

/// The plain mean is the sum that the arithmetic gives, over the count that it gives.
pub proof fn lemma_plain_mean_quotient<A: Arithmetic>(arith: &A, values: &[Double], r: Double)
    requires
        call_ensures(plain_mean::<A>, (arith, values), r),
        values@.len() <= usize::MAX,
    ensures
        exists|v: &[Double], sum: Double, n: Double|
            {
                &&& v@ == values@
                &&& #[trigger] call_ensures(A::sum, (arith, v), sum)
                &&& #[trigger] call_ensures(A::from_count, (arith, values@.len() as u128), n)
                &&& call_ensures(A::over, (arith, sum, n), r)
            },
{
    let (s, n) = choose|s: Double, n: Double| #[trigger]
        is_sum(arith, values@, s) && #[trigger] is_count(arith, values@.len() as int, n)
            && is_over(arith, s, n, r);
    let v = choose|v: &[Double]| v@ == values@ && #[trigger] call_ensures(A::sum, (arith, v), s);
    assert(call_ensures(A::from_count, (arith, values@.len() as u128), n));
}

/// What is the sum of `values` over their count, where sum and quotient are exact.
pub proof fn lemma_plain_mean_value<A: Arithmetic>(arith: &A, values: Seq<Double>, r: Double)
    requires
        is_plain_mean(arith, values, r),
        0 < values.len() <= usize::MAX,
        is_faithful(arith),
        sums_exactly(arith, values),
        is_value(values.len() * unit()),
        has_quotient(total(values), values.len() as int),
    ensures
        r.finite(),
        r.value() * values.len() == total(values),
{
    let (s, n) = choose|s: Double, n: Double| #[trigger]
        is_sum(arith, values, s) && #[trigger] is_count(arith, values.len() as int, n) && is_over(
            arith,
            s,
            n,
            r,
        );
    let v = choose|v: &[Double]| v@ == values && #[trigger] call_ensures(A::sum, (arith, v), s);
    let k = values.len() as int;
    let u = unit();
    lemma_pow2_pos(1074);
    assert(call_ensures(A::from_count, (arith, values.len() as u128), n));
    assert(n.value() == k * u);
    assert(s.value() == total(values));
    let d = choose|d: Double| d.finite() && #[trigger] d.value() * k == total(values);
    assert(k * u != 0) by (nonlinear_arith)
        requires
            k > 0,
            u > 0,
    ;
    lemma_over_scaled(d.value(), k, s.value(), u);
    assert(d.value() * n.value() == s.value() * u);
    assert(call_ensures(A::over, (arith, s, n), r));
    lemma_over_scaled(r.value(), k, s.value(), u);
}

/// Whether the sum of the first `k` of `values` is the value of a finite number, for each
/// `k`, and all of `values` are finite.
pub open spec fn has_partial_sums(values: Seq<Double>) -> bool {
    &&& forall|k: int| 0 <= k <= values.len() ==> is_value(#[trigger] total(values.take(k)))
    &&& forall|k: int| 0 <= k < values.len() ==> (#[trigger] values[k]).finite()
}

/// Numbers added to zero one after the other end in their sum, where the arithmetic can
/// be exact all the way.
pub proof fn lemma_running_sum_exact<A: Arithmetic>(
    arith: &A,
    start: Double,
    values: Seq<Double>,
    r: Double,
)
    requires
        is_running_sum(arith, start, values, r),
        is_faithful(arith),
        start.finite(),
        start.value() == 0,
        has_partial_sums(values),
    ensures
        r.finite(),
        r.value() == total(values),
    decreases values.len(),
{
    if values.len() > 0 {
        let front = values.drop_last();
        let s = choose|s: Double| #[trigger]
            is_plus(arith, s, values.last(), r) && is_running_sum(arith, start, front, s);
        assert forall|k: int| 0 <= k <= front.len() implies is_value(
            #[trigger] total(front.take(k)),
        ) by {
            assert(front.take(k) =~= values.take(k));
            assert(is_value(total(values.take(k))));
        }
        assert forall|k: int| 0 <= k < front.len() implies (#[trigger] front[k]).finite() by {
            assert(front[k] == values[k]);
        }
        lemma_running_sum_exact(arith, start, front, s);
        assert(values.take(values.len() as int) =~= values);
        assert(is_value(total(values.take(values.len() as int))));
        assert(values[values.len() - 1].finite());
        assert(call_ensures(A::plus, (arith, s, values.last()), r));
    }
}

/// Both sides of an equation times the same number.
pub proof fn lemma_over_scaled(x: int, k: int, y: int, u: int)
    requires
        u > 0,
    ensures
        x * (k * u) == y * u <==> x * k == y,
{
    assert(x * (k * u) == (x * k) * u) by (nonlinear_arith);
    assert((x * k) * u == y * u <==> x * k == y) by (nonlinear_arith)
        requires
            u > 0,
    ;
}

} // verus!
