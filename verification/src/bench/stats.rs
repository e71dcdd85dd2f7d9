//! Statistics of a sample.

use crate::arithmetic::{
    averages_exactly, deviates_exactly, halves_between, is_consistent, is_faithful, is_mean,
    is_midpoint, is_over, is_percentage, is_plus, is_std_dev, is_times, lemma_over_scaled, midpoint,
    percentage, Arithmetic,
};
use crate::double::{
    has_quotient, is_value, lemma_magnitude_order, lemma_named_numbers, lemma_value_identifies,
    total, unit, Double, HUNDRED_BITS, TWO_BITS, ZERO_BITS,
};
use crate::sorting::{
    all_numbers, are_scaled, is_scaled, is_stable_sort, lemma_all_numbers_permutes,
    lemma_filter_count, lemma_filter_permutes, lemma_sort_ignores_order, lemma_sort_same_values,
    lemma_sort_scaled, lemma_sort_with_outlier, lemma_stable_sort_permutes,
    lemma_stable_sort_unique, stable_sort,
};
use vstd::arithmetic::power2::lemma_pow2_pos;
use vstd::prelude::*;

verus! {

/// Statistics of a sample of numbers.
#[derive(Clone, Copy, PartialEq, Eq, Structural, Debug)]
pub struct Stats {
    pub mean: Double,
    pub median: Double,
    pub min: Double,
    pub max: Double,
    pub cv_percent: Double,
}

/// The items of `values` that are numbers, in their order.
pub open spec fn numbers(values: Seq<Double>) -> Seq<Double> {
    values.filter(|d: Double| !d.nan())
}

/// Whether `m` is the first of the least items of `s`.
pub open spec fn is_first_least(s: Seq<Double>, m: Double) -> bool {
    exists|i: int|
        {
            &&& 0 <= i < s.len()
            &&& m == #[trigger] s[i]
            &&& forall|j: int| 0 <= j < i ==> s[i].value() < (#[trigger] s[j]).value()
            &&& forall|j: int| i <= j < s.len() ==> s[i].value() <= (#[trigger] s[j]).value()
        }
}

/// Whether `m` is the last of the greatest items of `s`.
pub open spec fn is_last_greatest(s: Seq<Double>, m: Double) -> bool {
    exists|i: int|
        {
            &&& 0 <= i < s.len()
            &&& m == #[trigger] s[i]
            &&& forall|j: int| 0 <= j <= i ==> (#[trigger] s[j]).value() <= s[i].value()
            &&& forall|j: int| i < j < s.len() ==> (#[trigger] s[j]).value() < s[i].value()
        }
}

/// Whether `m` is the median of the sorted sequence `s`: the middle item of an odd
/// number of items, and the midpoint of the two middle items of an even number.
pub open spec fn is_middle<A: Arithmetic>(arith: &A, s: Seq<Double>, m: Double) -> bool {
    let half = s.len() as int / 2;
    if s.len() % 2 == 0 {
        is_midpoint(arith, s[half - 1], s[half], m)
    } else {
        m == s[half]
    }
}

/// Whether `m` is the median of `s`.
pub open spec fn is_median<A: Arithmetic>(arith: &A, s: Seq<Double>, m: Double) -> bool {
    exists|t: Seq<Double>| #[trigger] is_stable_sort(s, t) && is_middle(arith, t, m)
}

/// Whether `cv` is the coefficient of variation of `s`, in percent, where `mean` is
/// its mean: the standard deviation over the mean, and 0 for a sample of one or a
/// mean that is not positive.
pub open spec fn is_cv_percent<A: Arithmetic>(
    arith: &A,
    s: Seq<Double>,
    mean: Double,
    cv: Double,
) -> bool {
    if s.len() <= 1 || !(Double { bits: ZERO_BITS }).below(mean) {
        cv == (Double { bits: ZERO_BITS })
    } else {
        exists|d: Double| #[trigger]
            is_std_dev(arith, s, d) && is_percentage(arith, d, mean, cv)
    }
}

/// Whether `r` are the statistics of the numbers among `values`. There are none
/// where there are no numbers.
pub open spec fn are_stats<A: Arithmetic>(
    arith: &A,
    values: Seq<Double>,
    r: Option<Stats>,
) -> bool {
    let s = numbers(values);
    match r {
        None => s.len() == 0,
        Some(stats) => {
            &&& s.len() > 0
            &&& is_mean(arith, s, stats.mean)
            &&& is_median(arith, s, stats.median)
            &&& is_first_least(s, stats.min)
            &&& is_last_greatest(s, stats.max)
            &&& is_cv_percent(arith, s, stats.mean, stats.cv_percent)
        },
    }
}

/// Whether `r` is what `Stats::compute` gives for `values`.
pub open spec fn is_computed<A: Arithmetic>(
    arith: &A,
    values: Seq<Double>,
    r: Option<Stats>,
) -> bool {
    exists|v: &[Double]| v@ == values && #[trigger]
        call_ensures(Stats::compute::<A>, (v, arith), r)
}

/// The items of `values` that are numbers.
fn keep_numbers(values: &[Double]) -> (r: Vec<Double>)
    ensures
        r@ == numbers(values@),
        all_numbers(r@),
{
    let mut r: Vec<Double> = Vec::new();
    let mut i: usize = 0;
    proof {
        reveal(Seq::filter);
        assert(values@.take(0) =~= Seq::empty());
    }
    while i < values.len()
        invariant
            i <= values.len(),
            r@ == numbers(values@.take(i as int)),
            all_numbers(r@),
        decreases values.len() - i,
    {
        let d = values[i];
        proof {
            assert(values@.take(i + 1) =~= values@.take(i as int).push(d));
            values@.take(i as int).lemma_filter_push(d, |d: Double| !d.nan());
        }
        if !d.is_nan() {
            r.push(d);
        }
        i = i + 1;
    }
    assert(values@.take(values.len() as int) =~= values@);
    r
}

/// The first of the least items of `s`.
fn first_least(s: &Vec<Double>) -> (m: Double)
    requires
        s.len() > 0,
        all_numbers(s@),
    ensures
        is_first_least(s@, m),
{
    let mut at: usize = 0;
    let mut i: usize = 1;
    while i < s.len()
        invariant
            1 <= i <= s.len(),
            at < i,
            all_numbers(s@),
            forall|j: int| 0 <= j < at ==> s[at as int].value() < (#[trigger] s[j]).value(),
            forall|j: int| at <= j < i ==> s[at as int].value() <= (#[trigger] s[j]).value(),
        decreases s.len() - i,
    {
        if s[i].is_below(s[at]) {
            at = i;
        }
        i = i + 1;
    }
    let m = s[at];
    assert(m == s@[at as int]);
    m
}

/// The last of the greatest items of `s`.
fn last_greatest(s: &Vec<Double>) -> (m: Double)
    requires
        s.len() > 0,
        all_numbers(s@),
    ensures
        is_last_greatest(s@, m),
{
    let mut at: usize = 0;
    let mut i: usize = 1;
    while i < s.len()
        invariant
            1 <= i <= s.len(),
            at < i,
            all_numbers(s@),
            forall|j: int| 0 <= j <= at ==> (#[trigger] s[j]).value() <= s[at as int].value(),
            forall|j: int| at < j < i ==> (#[trigger] s[j]).value() < s[at as int].value(),
        decreases s.len() - i,
    {
        if !s[i].is_below(s[at]) {
            at = i;
        }
        i = i + 1;
    }
    let m = s[at];
    assert(m == s@[at as int]);
    m
}

impl Stats {
    /// The statistics of the numbers among `values`. Returns `None` where
    /// `values` is empty or all of it is NaN.
    pub fn compute<A: Arithmetic>(values: &[Double], arith: &A) -> (r: Option<Stats>)
        ensures
            are_stats(arith, values@, r),
            r is None <==> forall|i: int| 0 <= i < values@.len() ==> (#[trigger] values@[i]).nan(),
    {
        let valid = keep_numbers(values);
        let ghost s = numbers(values@);
        proof {
            lemma_numbers_empty(values@);
        }
        if valid.len() == 0 {
            return None;
        }
        let mean = arith.mean(valid.as_slice());
        let zero = Double::zero();
        let cv_percent = if valid.len() <= 1 {
            zero
        } else {
            let d = arith.std_dev(valid.as_slice());
            assert(is_std_dev(arith, s, d));
            if zero.is_below(mean) {
                percentage(arith, d, mean)
            } else {
                zero
            }
        };
        let min = first_least(&valid);
        let max = last_greatest(&valid);
        let sorted = stable_sort(valid.as_slice());
        let half: usize = sorted.len() / 2;
        let median = if sorted.len() % 2 == 0 {
            midpoint(arith, sorted[half - 1], sorted[half])
        } else {
            sorted[half]
        };
        assert(is_stable_sort(s, sorted@));
        Some(Stats { mean, median, min, max, cv_percent })
    }
}

/// There are no numbers exactly where all of it is NaN.
proof fn lemma_numbers_empty(values: Seq<Double>)
    ensures
        numbers(values).len() == 0 <==> forall|i: int|
            0 <= i < values.len() ==> (#[trigger] values[i]).nan(),
{
    let p = |d: Double| !d.nan();
    if numbers(values).len() > 0 {
        values.lemma_filter_pred(p, 0);
        values.lemma_filter_contains_rev(p, numbers(values)[0]);
    } else {
        assert forall|i: int| 0 <= i < values.len() implies (#[trigger] values[i]).nan() by {
            if !values[i].nan() {
                values.lemma_filter_contains(p, i);
            }
        }
    }
}

/// The least and the greatest number bound all numbers of the sample and are among
/// them; with an odd number of numbers, so is the median.
pub proof fn lemma_stats_bounds<A: Arithmetic>(arith: &A, values: Seq<Double>, stats: Stats)
    requires
        are_stats(arith, values, Some(stats)),
    ensures
        numbers(values).contains(stats.min),
        numbers(values).contains(stats.max),
        forall|i: int|
            0 <= i < numbers(values).len() ==> stats.min.value() <= (#[trigger] numbers(
                values,
            )[i]).value() <= stats.max.value(),
        numbers(values).len() % 2 == 1 ==> numbers(values).contains(stats.median)
            && stats.min.value() <= stats.median.value() <= stats.max.value(),
{
    let s = numbers(values);
    assert forall|i: int| 0 <= i < s.len() implies stats.min.value() <= (#[trigger] s[i]).value()
        <= stats.max.value() by {}
    let t = choose|t: Seq<Double>| #[trigger]
        is_stable_sort(s, t) && is_middle(arith, t, stats.median);
    lemma_stable_sort_permutes(s, t);
    if s.len() % 2 == 1 {
        let m = t[t.len() as int / 2];
        s.to_multiset_ensures();
        t.to_multiset_ensures();
        assert(t.contains(m));
        assert(s.to_multiset().count(m) > 0);
        assert(s.contains(m));
        let k = choose|k: int| 0 <= k < s.len() && s[k] == m;
        assert(stats.min.value() <= s[k].value() <= stats.max.value());
    }
}

/// Numbers are all kept.
proof fn lemma_numbers_kept(values: Seq<Double>)
    requires
        all_numbers(values),
    ensures
        numbers(values) == values,
    decreases values.len(),
{
    reveal(Seq::filter);
    if values.len() > 0 {
        assert(!values[values.len() - 1].nan());
        lemma_numbers_kept(values.drop_last());
        assert(values =~= values.drop_last().push(values.last()));
    }
}

/// What is kept are numbers.
proof fn lemma_numbers_are_numbers(values: Seq<Double>)
    ensures
        all_numbers(numbers(values)),
{
    assert forall|i: int| 0 <= i < numbers(values).len() implies !(#[trigger] numbers(
        values,
    )[i]).nan() by {
        values.lemma_filter_pred(|d: Double| !d.nan(), i);
    }
}

/// The statistics of a sample are fixed by it, where equal operations have equal
/// results.
pub proof fn lemma_stats_unique<A: Arithmetic>(
    arith: &A,
    values: Seq<Double>,
    r: Option<Stats>,
    r2: Option<Stats>,
)
    requires
        is_consistent(arith),
        are_stats(arith, values, r),
        are_stats(arith, values, r2),
    ensures
        r == r2,
{
    let s = numbers(values);
    if r is Some {
        let a = r->0;
        let b = r2->0;
        lemma_median_unique(arith, s, a.median, b.median);
        assert(a.mean == b.mean);
        assert(a.min == b.min);
        assert(a.max == b.max);
    }
}

/// A sample has one median, where equal operations have equal results.
proof fn lemma_median_unique<A: Arithmetic>(arith: &A, s: Seq<Double>, m: Double, m2: Double)
    requires
        is_consistent(arith),
        is_median(arith, s, m),
        is_median(arith, s, m2),
    ensures
        m == m2,
{
    let t = choose|t: Seq<Double>| #[trigger] is_stable_sort(s, t) && is_middle(arith, t, m);
    let t2 = choose|t2: Seq<Double>| #[trigger]
        is_stable_sort(s, t2) && is_middle(arith, t2, m2);
    lemma_stable_sort_unique(s, t, t2);
}

/// NaNs count for nothing: the statistics of a sample are those of its numbers, and the
/// same five figures where equal operations have equal results.
pub proof fn lemma_nan_ignored<A: Arithmetic>(
    arith: &A,
    values: Seq<Double>,
    r: Option<Stats>,
    r2: Option<Stats>,
)
    ensures
        are_stats(arith, values, r) <==> are_stats(arith, numbers(values), r),
        are_stats(arith, values, r) && are_stats(arith, numbers(values), r2) ==> (r is Some
            <==> r2 is Some),
        is_consistent(arith) && are_stats(arith, values, r) && are_stats(
            arith,
            numbers(values),
            r2,
        ) ==> r == r2,
{
    lemma_numbers_are_numbers(values);
    lemma_numbers_kept(numbers(values));
    if is_consistent(arith) && are_stats(arith, values, r) && are_stats(
        arith,
        numbers(values),
        r2,
    ) {
        lemma_stats_unique(arith, values, r, r2);
    }
}

/// Whether two sequences have equal numbers in the middle: at the places that the
/// median rests on.
pub open spec fn same_middle(t: Seq<Double>, u: Seq<Double>) -> bool {
    let half = t.len() as int / 2;
    &&& t.len() == u.len()
    &&& t[half].same_number(u[half])
    &&& t.len() % 2 == 0 ==> t[half - 1].same_number(u[half - 1])
}

/// Whether no number in the middle is zero.
pub open spec fn nonzero_middle(t: Seq<Double>) -> bool {
    let half = t.len() as int / 2;
    &&& t[half].value() != 0
    &&& t.len() % 2 == 0 ==> t[half - 1].value() != 0
}

/// Whether no number in the middle of the sort of `s` is zero.
pub open spec fn nonzero_median(s: Seq<Double>) -> bool {
    forall|t: Seq<Double>| #[trigger] is_stable_sort(s, t) ==> nonzero_middle(t)
}

/// Where two samples have equal numbers in the middle of their sorts, none of them zero,
/// they have the same medians, and one where equal operations have equal results.
proof fn lemma_same_medians<A: Arithmetic>(
    arith: &A,
    s: Seq<Double>,
    u: Seq<Double>,
    m: Double,
    m2: Double,
)
    requires
        forall|t: Seq<Double>, t2: Seq<Double>| #[trigger]
            is_stable_sort(s, t) && #[trigger] is_stable_sort(u, t2) ==> same_middle(t, t2),
        nonzero_median(s),
        is_median(arith, s, m),
        is_median(arith, u, m2),
    ensures
        forall|x: Double| #[trigger] is_median(arith, s, x) <==> is_median(arith, u, x),
        is_consistent(arith) ==> m == m2,
{
    let t = choose|t: Seq<Double>| #[trigger] is_stable_sort(s, t) && is_middle(arith, t, m);
    let t2 = choose|t2: Seq<Double>| #[trigger]
        is_stable_sort(u, t2) && is_middle(arith, t2, m2);
    assert(same_middle(t, t2));
    assert(nonzero_middle(t));
    assert forall|x: Double| #[trigger] is_median(arith, s, x) <==> is_median(arith, u, x) by {
        if is_median(arith, s, x) {
            let v = choose|v: Seq<Double>| #[trigger]
                is_stable_sort(s, v) && is_middle(arith, v, x);
            lemma_stable_sort_unique(s, t, v);
            assert(is_middle(arith, t2, x));
        }
        if is_median(arith, u, x) {
            let v = choose|v: Seq<Double>| #[trigger]
                is_stable_sort(u, v) && is_middle(arith, v, x);
            lemma_stable_sort_unique(u, t2, v);
            assert(is_middle(arith, t, x));
        }
    }
    if is_consistent(arith) {
        assert(is_median(arith, s, m2));
        lemma_median_unique(arith, s, m, m2);
    }
}

/// The order of the values does not matter: of two permutations of each other, either
/// both have statistics or none, with an equal least and greatest number and equal
/// numbers in the middle of their sorts. With an odd number of numbers the medians are
/// equal. Where none of the numbers in the middle is zero, what is a median of one is a
/// median of the other, and the medians are the same where equal operations have equal
/// results.
pub proof fn lemma_order_ignored<A: Arithmetic>(
    arith: &A,
    values: Seq<Double>,
    values2: Seq<Double>,
    r: Option<Stats>,
    r2: Option<Stats>,
)
    requires
        values.to_multiset() == values2.to_multiset(),
        are_stats(arith, values, r),
        are_stats(arith, values2, r2),
    ensures
        r is Some <==> r2 is Some,
        numbers(values).len() == numbers(values2).len(),
        r is Some ==> {
            &&& r->0.min.same_number(r2->0.min)
            &&& r->0.max.same_number(r2->0.max)
            &&& forall|t: Seq<Double>, t2: Seq<Double>| #[trigger]
                is_stable_sort(numbers(values), t) && #[trigger] is_stable_sort(
                    numbers(values2),
                    t2,
                ) ==> same_middle(t, t2)
            &&& numbers(values).len() % 2 == 1 ==> r->0.median.same_number(r2->0.median)
            &&& nonzero_median(numbers(values)) ==> forall|m: Double| #[trigger]
                is_median(arith, numbers(values), m) <==> is_median(arith, numbers(values2), m)
            &&& nonzero_median(numbers(values)) && is_consistent(arith) ==> r->0.median
                == r2->0.median
        },
{
    let s = numbers(values);
    let s2 = numbers(values2);
    lemma_filter_permutes(values, values2, |d: Double| !d.nan());
    lemma_numbers_are_numbers(values);
    lemma_numbers_are_numbers(values2);
    if r is Some {
        let a = r->0;
        let b = r2->0;
        lemma_stats_bounds(arith, values, a);
        lemma_stats_bounds(arith, values2, b);
        s.to_multiset_ensures();
        s2.to_multiset_ensures();
        assert(s2.to_multiset().count(a.min) > 0 && s2.to_multiset().count(a.max) > 0);
        assert(s.to_multiset().count(b.min) > 0 && s.to_multiset().count(b.max) > 0);
        assert(s2.contains(a.min) && s2.contains(a.max));
        assert(s.contains(b.min) && s.contains(b.max));
        lemma_value_identifies(a.min, b.min);
        lemma_value_identifies(a.max, b.max);
        assert forall|t: Seq<Double>, t2: Seq<Double>| #[trigger]
            is_stable_sort(s, t) && #[trigger] is_stable_sort(s2, t2) implies same_middle(
            t,
            t2,
        ) by {
            lemma_sort_ignores_order(s, s2, t, t2);
            lemma_stable_sort_permutes(s, t);
        }
        let t = choose|t: Seq<Double>| #[trigger]
            is_stable_sort(s, t) && is_middle(arith, t, a.median);
        let t2 = choose|t2: Seq<Double>| #[trigger]
            is_stable_sort(s2, t2) && is_middle(arith, t2, b.median);
        assert(same_middle(t, t2));
        lemma_stable_sort_permutes(s, t);
        if nonzero_median(s) {
            lemma_same_medians(arith, s, s2, a.median, b.median);
        }
    }
}

/// One high outlier does not move the median: where a greatest of three numbers or more
/// is replaced by a greater `y`, the greatest number is `y`, and the least number and
/// the numbers in the middle of the sort are equal. With an odd number of numbers the
/// medians are equal. Where none of the numbers in the middle is zero, what is a median
/// of one sample is a median of the other, and the medians are the same where equal
/// operations have equal results.
pub proof fn lemma_outlier_spares_median<A: Arithmetic>(
    arith: &A,
    values: Seq<Double>,
    at: int,
    y: Double,
    stats: Stats,
    stats2: Stats,
)
    requires
        all_numbers(values),
        values.len() >= 3,
        0 <= at < values.len(),
        forall|i: int|
            0 <= i < values.len() ==> (#[trigger] values[i]).value() <= values[at].value(),
        !y.nan(),
        values[at].value() < y.value(),
        are_stats(arith, values, Some(stats)),
        are_stats(arith, values.update(at, y), Some(stats2)),
    ensures
        stats2.max == y,
        stats.min.same_number(stats2.min),
        forall|t: Seq<Double>, t2: Seq<Double>| #[trigger]
            is_stable_sort(values, t) && #[trigger] is_stable_sort(values.update(at, y), t2)
                ==> same_middle(t, t2),
        values.len() % 2 == 1 ==> stats.median.same_number(stats2.median),
        nonzero_median(values) ==> forall|m: Double| #[trigger]
            is_median(arith, values, m) <==> is_median(arith, values.update(at, y), m),
        nonzero_median(values) && is_consistent(arith) ==> stats.median == stats2.median,
{
    let s = values;
    let s2 = values.update(at, y);
    assert(all_numbers(s2));
    lemma_numbers_kept(s);
    lemma_numbers_kept(s2);
    lemma_stats_bounds(arith, s, stats);
    lemma_stats_bounds(arith, s2, stats2);
    assert(s2[at] == y);
    assert(s2[at].value() <= stats2.max.value());
    let k = choose|k: int| 0 <= k < s2.len() && s2[k] == stats2.max;
    if k != at {
        assert(s2[k] == s[k]);
    }
    assert forall|t: Seq<Double>, t2: Seq<Double>| #[trigger]
        is_stable_sort(s, t) && #[trigger] is_stable_sort(s2, t2) implies same_middle(t, t2) by {
        lemma_sort_with_outlier(s, at, y, t, t2);
    }
    let t = choose|t: Seq<Double>| #[trigger]
        is_stable_sort(s, t) && is_middle(arith, t, stats.median);
    let t2 = choose|t2: Seq<Double>| #[trigger]
        is_stable_sort(s2, t2) && is_middle(arith, t2, stats2.median);
    assert(same_middle(t, t2));
    lemma_sort_with_outlier(s, at, y, t, t2);
    lemma_least_heads_sort(s, t, stats.min);
    lemma_least_heads_sort(s2, t2, stats2.min);
    assert(t[0].same_number(t2[0]));
    lemma_value_identifies(stats.min, stats2.min);
    if nonzero_median(s) {
        lemma_same_medians(arith, s, s2, stats.median, stats2.median);
    }
}

/// The unit does not matter: where all numbers of a sample have `k / m` times the values
/// of those of another, so have the least and the greatest number and the items of the
/// sort at each place, those in the middle among them, and with an odd number of numbers
/// the median. The mean, the coefficient of variation and the median of an even number
/// are what the arithmetic makes of the scaled numbers.
pub proof fn lemma_stats_scaled<A: Arithmetic>(
    arith: &A,
    values: Seq<Double>,
    values2: Seq<Double>,
    k: int,
    m: int,
    stats: Stats,
    stats2: Stats,
)
    requires
        k > 0,
        m > 0,
        are_scaled(numbers(values), numbers(values2), k, m),
        are_stats(arith, values, Some(stats)),
        are_stats(arith, values2, Some(stats2)),
    ensures
        is_scaled(stats.min, stats2.min, k, m),
        is_scaled(stats.max, stats2.max, k, m),
        forall|t: Seq<Double>, t2: Seq<Double>| #[trigger]
            is_stable_sort(numbers(values), t) && #[trigger] is_stable_sort(numbers(values2), t2)
                ==> are_scaled(t, t2, k, m),
        numbers(values).len() % 2 == 1 ==> is_scaled(stats.median, stats2.median, k, m),
{
    let s = numbers(values);
    let s2 = numbers(values2);
    assert forall|t: Seq<Double>, t2: Seq<Double>| #[trigger]
        is_stable_sort(s, t) && #[trigger] is_stable_sort(s2, t2) implies are_scaled(
        t,
        t2,
        k,
        m,
    ) by {
        lemma_sort_scaled(s, s2, k, m, t, t2);
    }
    let t = choose|t: Seq<Double>| #[trigger]
        is_stable_sort(s, t) && is_middle(arith, t, stats.median);
    let t2 = choose|t2: Seq<Double>| #[trigger]
        is_stable_sort(s2, t2) && is_middle(arith, t2, stats2.median);
    assert(are_scaled(t, t2, k, m));
    lemma_stable_sort_permutes(s, t);
    lemma_stable_sort_permutes(s2, t2);
    lemma_numbers_are_numbers(values);
    lemma_numbers_are_numbers(values2);
    lemma_least_heads_sort(s, t, stats.min);
    lemma_least_heads_sort(s2, t2, stats2.min);
    assert(is_scaled(t[0], t2[0], k, m));
    lemma_greatest_ends_sort(s, t, stats.max);
    lemma_greatest_ends_sort(s2, t2, stats2.max);
    assert(is_scaled(t[t.len() - 1], t2[t.len() - 1], k, m));
    if s.len() % 2 == 1 {
        assert(is_scaled(t[t.len() as int / 2], t2[t.len() as int / 2], k, m));
    }
}

/// The least number of a sample has the value of the first item of its sort, and is a
/// number.
proof fn lemma_least_heads_sort(s: Seq<Double>, t: Seq<Double>, min: Double)
    requires
        all_numbers(s),
        is_stable_sort(s, t),
        is_first_least(s, min),
    ensures
        !min.nan(),
        min.value() == t[0].value(),
{
    lemma_stable_sort_permutes(s, t);
    s.to_multiset_ensures();
    t.to_multiset_ensures();
    assert(s.contains(min));
    assert(t.to_multiset().count(min) > 0);
    assert(t.contains(min));
    assert(t.contains(t[0]));
    assert(s.to_multiset().count(t[0]) > 0);
    assert(s.contains(t[0]));
}

/// The greatest number of a sample has the value of the last item of its sort.
proof fn lemma_greatest_ends_sort(s: Seq<Double>, t: Seq<Double>, max: Double)
    requires
        is_stable_sort(s, t),
        is_last_greatest(s, max),
    ensures
        max.value() == t[t.len() - 1].value(),
{
    lemma_stable_sort_permutes(s, t);
    s.to_multiset_ensures();
    t.to_multiset_ensures();
    let last = t[t.len() - 1];
    assert(s.contains(max));
    assert(t.to_multiset().count(max) > 0);
    assert(t.contains(max));
    assert(t.contains(last));
    assert(s.to_multiset().count(last) > 0);
    assert(s.contains(last));
}

/// Whether `t` is the numbers among `values`, each as often, in ascending order.
pub open spec fn are_ascending_numbers(values: Seq<Double>, t: Seq<Double>) -> bool {
    &&& forall|i: int, j: int|
        0 <= i <= j < t.len() ==> (#[trigger] t[i]).value() <= (#[trigger] t[j]).value()
    &&& forall|d: Double| #[trigger]
        t.to_multiset().count(d) == if d.nan() {
            0
        } else {
            values.to_multiset().count(d)
        }
}

/// The ascending numbers of a sample have the values of its sort, place by place, and are
/// the items of the sample that are no NaN.
proof fn lemma_ascending_numbers(values: Seq<Double>, t: Seq<Double>, sorted: Seq<Double>)
    requires
        are_ascending_numbers(values, t),
        is_stable_sort(numbers(values), sorted),
    ensures
        t.len() == numbers(values).len(),
        t.len() == sorted.len(),
        t.to_multiset() == numbers(values).to_multiset(),
        forall|i: int| 0 <= i < t.len() ==> (#[trigger] t[i]).value() == sorted[i].value(),
        forall|i: int| 0 <= i < t.len() ==> !(#[trigger] sorted[i]).nan(),
        forall|i: int| 0 <= i < t.len() ==> !(#[trigger] t[i]).nan(),
{
    let s = numbers(values);
    lemma_numbers_multiset(values, t);
    lemma_sort_same_values(s, t, sorted);
    lemma_numbers_are_numbers(values);
    lemma_stable_sort_permutes(s, sorted);
    lemma_all_numbers_permutes(s, sorted);
    lemma_all_numbers_permutes(s, t);
}

/// The numbers of a sample, each as often.
proof fn lemma_numbers_multiset(values: Seq<Double>, t: Seq<Double>)
    requires
        forall|d: Double| #[trigger]
            t.to_multiset().count(d) == if d.nan() {
                0
            } else {
                values.to_multiset().count(d)
            },
    ensures
        t.to_multiset() == numbers(values).to_multiset(),
        t.len() == numbers(values).len(),
{
    let s = numbers(values);
    assert forall|d: Double|
        #![trigger t.to_multiset().count(d)]
        #![trigger s.to_multiset().count(d)]
        t.to_multiset().count(d) == s.to_multiset().count(d) by {
        lemma_filter_count(values, |e: Double| !e.nan(), d);
    }
    assert(t.to_multiset() =~= s.to_multiset());
    t.to_multiset_ensures();
    s.to_multiset_ensures();
}

/// What the least, the greatest and the middle number of a sample are, in terms of its
/// numbers in ascending order. There are statistics where there is a number. The least is
/// the first and the greatest the last of them. The median of an odd number is the one in
/// the middle. The median of an even number lies between the two in the middle, wherever
/// half of their sum does, and twice the median is their sum, where the arithmetic can be
/// exact on them.
pub proof fn lemma_compute_order<A: Arithmetic>(
    values: &[Double],
    arith: &A,
    r: Option<Stats>,
    t: Seq<Double>,
)
    requires
        call_ensures(Stats::compute::<A>, (values, arith), r),
        are_ascending_numbers(values@, t),
    ensures
        r is Some <==> t.len() > 0,
        r matches Some(s) ==> {
            let half = t.len() as int / 2;
            &&& values@.contains(s.min) && s.min.value() == t[0].value()
            &&& values@.contains(s.max) && s.max.value() == t[t.len() - 1].value()
            &&& !s.min.nan() && !s.max.nan()
            &&& t.len() % 2 == 1 ==> values@.contains(s.median) && !s.median.nan()
                && s.median.value() == t[half].value()
            &&& t.len() % 2 == 0 && halves_between(
                arith,
                t[half - 1].value(),
                t[half].value(),
            ) ==> {
                &&& t[half - 1].value() <= s.median.value() <= t[half].value()
                &&& s.min.value() <= s.median.value() <= s.max.value()
            }
            &&& t.len() % 2 == 0 ==> exists|a: Double, b: Double, sum: Double|
                {
                    &&& a.value() == t[half - 1].value()
                    &&& b.value() == t[half].value()
                    &&& #[trigger] call_ensures(A::plus, (arith, a, b), sum)
                    &&& call_ensures(
                        A::over,
                        (arith, sum, Double { bits: 0x4000_0000_0000_0000 }),
                        s.median,
                    )
                }
            &&& t.len() % 2 == 0 && is_faithful(arith) && t[0].finite() && t[t.len() - 1].finite()
                && is_value(t[half - 1].value() + t[half].value()) && has_quotient(
                t[half - 1].value() + t[half].value(),
                2,
            ) ==> s.median.value() * 2 == t[half - 1].value() + t[half].value()
        },
{
    let s = numbers(values@);
    lemma_numbers_multiset(values@, t);
    if let Some(stats) = r {
        let sorted = choose|u: Seq<Double>| #[trigger]
            is_stable_sort(s, u) && is_middle(arith, u, stats.median);
        lemma_ascending_numbers(values@, t, sorted);
        lemma_numbers_are_numbers(values@);
        lemma_least_heads_sort(s, sorted, stats.min);
        lemma_greatest_ends_sort(s, sorted, stats.max);
        lemma_stats_bounds(arith, values@, stats);
        lemma_numbers_members(values@);
        let half = t.len() as int / 2;
        assert(t[0].value() == sorted[0].value());
        assert(t[t.len() - 1].value() == sorted[t.len() - 1].value());
        assert(t[half].value() == sorted[half].value());
        assert(!sorted[half].nan());
        if t.len() % 2 == 0 {
            let a = sorted[half - 1];
            let b = sorted[half];
            assert(t[half - 1].value() == a.value());
            assert(!a.nan());
            lemma_named_numbers();
            let two = Double { bits: TWO_BITS };
            let m = stats.median;
            let sum = choose|sum: Double| #[trigger]
                is_plus(arith, a, b, sum) && is_over(arith, sum, two, m);
            assert(call_ensures(A::plus, (arith, a, b), sum));
            assert(call_ensures(A::over, (arith, sum, two), m));
            if is_faithful(arith) && t[0].finite() && t[t.len() - 1].finite() && is_value(
                a.value() + b.value(),
            ) && has_quotient(a.value() + b.value(), 2) {
                lemma_finite_between(t[0], a, t[t.len() - 1]);
                lemma_finite_between(t[0], b, t[t.len() - 1]);
                lemma_half_exact(arith, sum, m);
            }
        }
    }
}

/// A number between two finite numbers is finite.
proof fn lemma_finite_between(a: Double, b: Double, c: Double)
    requires
        a.finite(),
        c.finite(),
        !b.nan(),
        a.value() <= b.value() <= c.value(),
    ensures
        b.finite(),
{
    reveal(Double::value);
    if !b.finite() {
        lemma_magnitude_order(a.magnitude(), b.magnitude());
        lemma_magnitude_order(c.magnitude(), b.magnitude());
        lemma_magnitude_order(0, b.magnitude());
        lemma_magnitude_order(0, a.magnitude());
        lemma_magnitude_order(0, c.magnitude());
    }
}

/// Half of a number, where it can be exact.
proof fn lemma_half_exact<A: Arithmetic>(arith: &A, sum: Double, m: Double)
    requires
        is_faithful(arith),
        sum.finite(),
        call_ensures(A::over, (arith, sum, Double { bits: TWO_BITS }), m),
        has_quotient(sum.value(), 2),
    ensures
        m.value() * 2 == sum.value(),
{
    lemma_named_numbers();
    let u = unit();
    lemma_pow2_pos(1074);
    let two = Double { bits: TWO_BITS };
    let h = choose|h: Double| h.finite() && #[trigger] h.value() * 2 == sum.value();
    lemma_over_scaled(h.value(), 2, sum.value(), u);
    assert(h.value() * two.value() == sum.value() * u);
    lemma_over_scaled(m.value(), 2, sum.value(), u);
}

/// The numbers of a sample are items of it.
proof fn lemma_numbers_members(values: Seq<Double>)
    ensures
        forall|d: Double| #[trigger] numbers(values).contains(d) ==> values.contains(d),
{
    let p = |d: Double| !d.nan();
    assert forall|d: Double| #[trigger] numbers(values).contains(d) implies values.contains(
        d,
    ) by {
        values.lemma_filter_contains_rev(p, d);
    }
}

/// Equal numbers have that number for their least, greatest and middle one, however many
/// they are: the median of an even number of them too, where half of the sum of two of
/// them is that number again.
pub proof fn lemma_compute_equal<A: Arithmetic>(
    values: &[Double],
    arith: &A,
    r: Option<Stats>,
    x: Double,
)
    requires
        call_ensures(Stats::compute::<A>, (values, arith), r),
        values@.len() > 0,
        !x.nan(),
        forall|i: int| 0 <= i < values@.len() ==> #[trigger] values@[i] == x,
    ensures
        r matches Some(s) && {
            &&& s.min == x
            &&& s.max == x
            &&& values@.len() % 2 == 1 || halves_between(arith, x.value(), x.value())
                ==> s.median.value() == x.value()
        },
{
    let t = values@;
    t.to_multiset_ensures();
    assert forall|d: Double| #[trigger] t.to_multiset().count(d) == if d.nan() {
        0
    } else {
        t.to_multiset().count(d)
    } by {
        if d.nan() && t.to_multiset().count(d) > 0 {
            assert(t.contains(d));
        }
    }
    lemma_compute_order(values, arith, r, t);
}

/// The mean of a sample times the number of its numbers is their sum, where the arithmetic
/// averages them exactly. The coefficient of variation is zero for a single number and
/// for a mean that is not positive; otherwise it is to a hundred as the standard
/// deviation is to the mean, where the arithmetic can be exact on them.
pub proof fn lemma_compute_mean<A: Arithmetic>(
    values: &[Double],
    arith: &A,
    s: Stats,
    dev: int,
)
    requires
        call_ensures(Stats::compute::<A>, (values, arith), Some(s)),
    ensures
        ({
            let kept = values@.filter(|d: Double| !d.nan());
            &&& exists|v: &[Double]| v@ == kept && #[trigger]
                call_ensures(A::mean, (arith, v), s.mean)
            &&& kept.len() > 1 && !s.mean.nan() && s.mean.value() > 0 ==> exists|
                v: &[Double],
                d: Double,
                q: Double,
            |
                {
                    &&& v@ == kept
                    &&& #[trigger] call_ensures(A::std_dev, (arith, v), d)
                    &&& #[trigger] call_ensures(A::over, (arith, d, s.mean), q)
                    &&& call_ensures(
                        A::times,
                        (arith, q, Double { bits: 0x4059_0000_0000_0000 }),
                        s.cv_percent,
                    )
                }
            &&& averages_exactly(arith, kept) ==> s.mean.value() * kept.len() == total(kept)
            &&& kept.len() == 1 || s.mean.nan() || s.mean.value() <= 0 ==> s.cv_percent == (
            Double { bits: 0 })
            &&& kept.len() > 1 && s.mean.finite() && s.mean.value() > 0 && is_faithful(arith)
                && deviates_exactly(arith, kept, dev) && has_quotient(
                dev * unit(),
                s.mean.value(),
            ) && has_quotient(100 * (dev * unit()), s.mean.value()) ==> s.cv_percent.value()
                * s.mean.value() == 100 * (dev * unit())
        }),
{
    let kept = values@.filter(|d: Double| !d.nan());
    assert(numbers(values@) == kept);
    lemma_named_numbers();
    let v = choose|v: &[Double]| v@ == kept && #[trigger]
        call_ensures(A::mean, (arith, v), s.mean);
    let zero = Double { bits: ZERO_BITS };
    assert(!zero.nan());
    if kept.len() > 1 && !s.mean.nan() && s.mean.value() > 0 {
        let hundred = Double { bits: HUNDRED_BITS };
        let d = choose|d: Double| #[trigger]
            is_std_dev(arith, kept, d) && is_percentage(arith, d, s.mean, s.cv_percent);
        let w = choose|w: &[Double]| w@ == kept && #[trigger]
            call_ensures(A::std_dev, (arith, w), d);
        let q = choose|q: Double| #[trigger]
            is_over(arith, d, s.mean, q) && is_times(arith, q, hundred, s.cv_percent);
        assert(call_ensures(A::over, (arith, d, s.mean), q));
    }
    if kept.len() > 1 && s.mean.finite() && s.mean.value() > 0 && is_faithful(arith)
        && deviates_exactly(arith, kept, dev) && has_quotient(dev * unit(), s.mean.value())
        && has_quotient(100 * (dev * unit()), s.mean.value()) {
        let u = unit();
        lemma_pow2_pos(1074);
        let mean = s.mean.value();
        let hundred = Double { bits: HUNDRED_BITS };
        let d = choose|d: Double| #[trigger]
            is_std_dev(arith, kept, d) && is_percentage(arith, d, s.mean, s.cv_percent);
        let w = choose|w: &[Double]| w@ == kept && #[trigger]
            call_ensures(A::std_dev, (arith, w), d);
        assert(d.value() == dev);
        let q = choose|q: Double| #[trigger]
            is_over(arith, d, s.mean, q) && is_times(arith, q, hundred, s.cv_percent);
        assert(call_ensures(A::over, (arith, d, s.mean), q));
        assert(q.value() * mean == dev * u);
        let c = choose|c: Double| c.finite() && #[trigger] c.value() * mean == 100 * (dev * u);
        assert(c.value() == 100 * q.value()) by (nonlinear_arith)
            requires
                q.value() * mean == dev * u,
                c.value() * mean == 100 * (dev * u),
                mean > 0,
        ;
        assert(c.value() * u == q.value() * (100 * u)) by (nonlinear_arith)
            requires
                c.value() == 100 * q.value(),
        ;
        assert(c.value() * u == q.value() * hundred.value());
        assert(call_ensures(A::times, (arith, q, hundred), s.cv_percent));
        let cv = s.cv_percent.value();
        assert(cv * u == q.value() * (100 * u));
        assert(cv * mean == 100 * (dev * u)) by (nonlinear_arith)
            requires
                cv * u == q.value() * (100 * u),
                q.value() * mean == dev * u,
                u > 0,
        ;
    }
}

/// Of equal least numbers the first counts, of equal greatest numbers the last: it matters
/// where both zeros are among them.
pub proof fn lemma_compute_ties<A: Arithmetic>(values: &[Double], arith: &A, s: Stats, i: int)
    requires
        call_ensures(Stats::compute::<A>, (values, arith), Some(s)),
    ensures
        ({
            let kept = values@.filter(|d: Double| !d.nan());
            &&& 0 <= i < kept.len() && kept[i].value() == s.min.value() && (forall|j: int|
                0 <= j < i ==> (#[trigger] kept[j]).value() != s.min.value()) ==> s.min == kept[i]
            &&& 0 <= i < kept.len() && kept[i].value() == s.max.value() && (forall|j: int|
                i < j < kept.len() ==> (#[trigger] kept[j]).value() != s.max.value()) ==> s.max
                == kept[i]
        }),
{
    let kept = values@.filter(|d: Double| !d.nan());
    assert(numbers(values@) == kept);
    let a = choose|a: int|
        {
            &&& 0 <= a < kept.len()
            &&& s.min == #[trigger] kept[a]
            &&& forall|j: int| 0 <= j < a ==> kept[a].value() < (#[trigger] kept[j]).value()
            &&& forall|j: int| a <= j < kept.len() ==> kept[a].value() <= (
            #[trigger] kept[j]).value()
        };
    let b = choose|b: int|
        {
            &&& 0 <= b < kept.len()
            &&& s.max == #[trigger] kept[b]
            &&& forall|j: int| 0 <= j <= b ==> (#[trigger] kept[j]).value() <= kept[b].value()
            &&& forall|j: int| b < j < kept.len() ==> (#[trigger] kept[j]).value()
                < kept[b].value()
        };
}

} // verus!
