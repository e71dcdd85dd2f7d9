//! What the samples of one pair of cores amount to, over its addresses.

use crate::arithmetic::{is_count, is_over, is_plus, is_running_sum, running_sum, Arithmetic};
use crate::bench::csv_output::rows_of;
use crate::bench::stats::{are_stats, is_computed, Stats};
use crate::bench::Count;
use crate::double::{Double, ZERO_BITS};
use vstd::prelude::*;
use vstd::slice::slice_subrange;

verus! {

/// The samples of each of the first `n` addresses: what was measured, without the
/// first, which only warms up.
pub open spec fn samples_of(durations: Seq<Seq<Double>>, n: nat) -> Seq<Seq<Double>> {
    Seq::new(n, |k: int| durations[k].skip(1))
}

/// Whether there are durations for the address `k`: at least the one that warms up,
/// and no more samples than were asked for.
pub open spec fn fits(durations: Seq<Seq<Double>>, num_samples: nat, k: int) -> bool {
    k < durations.len() && 1 <= durations[k].len() <= num_samples + 1
}

/// All samples, address by address.
pub open spec fn all_of(samples: Seq<Seq<Double>>) -> Seq<Double>
    decreases samples.len(),
{
    if samples.len() == 0 {
        Seq::empty()
    } else {
        all_of(samples.drop_last()) + samples.last()
    }
}

/// Whether `stats` are the statistics of the samples of each address.
pub open spec fn are_address_stats<A: Arithmetic>(
    arith: &A,
    samples: Seq<Seq<Double>>,
    stats: Seq<Option<Stats>>,
) -> bool {
    &&& stats.len() == samples.len()
    &&& forall|k: int| 0 <= k < samples.len() ==> #[trigger] are_stats(arith, samples[k], stats[k])
    &&& forall|k: int|
        0 <= k < samples.len() ==> #[trigger] is_computed(arith, samples[k], stats[k])
}

/// The means of the addresses that have statistics.
pub open spec fn means(stats: Seq<Option<Stats>>) -> Seq<Double>
    decreases stats.len(),
{
    if stats.len() == 0 {
        Seq::empty()
    } else {
        match stats.last() {
            Some(s) => means(stats.drop_last()).push(s.mean),
            None => means(stats.drop_last()),
        }
    }
}

/// The medians of the addresses that have statistics.
pub open spec fn medians(stats: Seq<Option<Stats>>) -> Seq<Double>
    decreases stats.len(),
{
    if stats.len() == 0 {
        Seq::empty()
    } else {
        match stats.last() {
            Some(s) => medians(stats.drop_last()).push(s.median),
            None => medians(stats.drop_last()),
        }
    }
}

/// Whether `out` is `before` with `row[s] / divisor` added at each place `s` that
/// `row` has.
pub open spec fn is_share_added<A: Arithmetic>(
    arith: &A,
    row: Seq<Double>,
    divisor: Double,
    before: Seq<Double>,
    out: Seq<Double>,
) -> bool {
    &&& out.len() == before.len()
    &&& forall|s: int|
        0 <= s < row.len() && s < out.len() ==> is_share_added_at(
            arith,
            row[s],
            divisor,
            before[s],
            #[trigger] out[s],
        )
    &&& forall|s: int| row.len() <= s < out.len() ==> #[trigger] out[s] == before[s]
}

/// Whether `r` is `a + v / divisor`.
pub open spec fn is_share_added_at<A: Arithmetic>(
    arith: &A,
    v: Double,
    divisor: Double,
    a: Double,
    r: Double,
) -> bool {
    exists|q: Double| #[trigger] is_over(arith, v, divisor, q) && is_plus(arith, a, q, r)
}

/// Whether `stages` leads from all zeros to the average over the addresses: each
/// stage has the share of one more address added.
pub open spec fn are_stages<A: Arithmetic>(
    arith: &A,
    samples: Seq<Seq<Double>>,
    divisor: Double,
    num_samples: nat,
    stages: Seq<Seq<Double>>,
) -> bool {
    &&& stages.len() == samples.len() + 1
    &&& stages[0] == Seq::new(num_samples, |s: int| Double { bits: ZERO_BITS })
    &&& forall|k: int|
        0 <= k < samples.len() ==> #[trigger] is_share_added(
            arith,
            samples[k],
            divisor,
            stages[k],
            stages[k + 1],
        )
}

/// Whether `avg` is, for each sample, its average over the addresses.
pub open spec fn is_average<A: Arithmetic>(
    arith: &A,
    samples: Seq<Seq<Double>>,
    num_samples: nat,
    avg: Seq<Double>,
) -> bool {
    exists|divisor: Double, stages: Seq<Seq<Double>>|
        {
            &&& #[trigger] is_count(arith, samples.len() as int, divisor)
            &&& #[trigger] are_stages(arith, samples, divisor, num_samples, stages)
            &&& avg == stages.last()
        }
}

/// One more sequence of values goes on from where the first one ended.
pub proof fn lemma_running_sum_append<A: Arithmetic>(
    arith: &A,
    start: Double,
    first: Seq<Double>,
    middle: Double,
    second: Seq<Double>,
    end: Double,
)
    requires
        is_running_sum(arith, start, first, middle),
        is_running_sum(arith, middle, second, end),
    ensures
        is_running_sum(arith, start, first + second, end),
    decreases second.len(),
{
    if second.len() == 0 {
        assert(first + second =~= first);
    } else {
        let s = choose|s: Double| #[trigger]
            is_plus(arith, s, second.last(), end) && is_running_sum(
                arith,
                middle,
                second.drop_last(),
                s,
            );
        lemma_running_sum_append(arith, start, first, middle, second.drop_last(), s);
        assert((first + second).drop_last() =~= first + second.drop_last());
        assert((first + second).last() == second.last());
        assert(is_plus(arith, s, (first + second).last(), end));
    }
}

/// The samples of one address.
fn address_samples(durations: &Vec<Vec<Double>>, k: usize) -> (r: &[Double])
    requires
        k < durations.len(),
        durations[k as int].len() >= 1,
    ensures
        r@ == durations[k as int]@.skip(1),
{
    let all = durations[k].as_slice();
    let r = slice_subrange(all, 1, all.len());
    assert(r@ =~= durations[k as int]@.skip(1));
    r
}

/// The statistics of the samples of each address.
pub fn address_stats<A: Arithmetic>(durations: &Vec<Vec<Double>>, n: usize, arith: &A) -> (r: Vec<
    Option<Stats>,
>)
    requires
        n <= durations.len(),
        forall|k: int| 0 <= k < n ==> (#[trigger] durations[k]).len() >= 1,
    ensures
        are_address_stats(arith, samples_of(rows_of(durations@), n as nat), r@),
{
    let ghost samples = samples_of(rows_of(durations@), n as nat);
    let mut r: Vec<Option<Stats>> = Vec::new();
    let mut k: usize = 0;
    while k < n
        invariant
            k <= n <= durations.len(),
            forall|k: int| 0 <= k < n ==> (#[trigger] durations[k]).len() >= 1,
            samples == samples_of(rows_of(durations@), n as nat),
            r.len() == k,
            forall|m: int| 0 <= m < k ==> #[trigger] are_stats(arith, samples[m], r[m]),
            forall|m: int| 0 <= m < k ==> #[trigger] is_computed(arith, samples[m], r[m]),
        decreases n - k,
    {
        assert(durations[k as int].len() >= 1);
        let values = address_samples(durations, k);
        let s = Stats::compute(values, arith);
        assert(values@ == samples[k as int]);
        assert(are_stats(arith, samples[k as int], s));
        assert(call_ensures(Stats::compute::<A>, (values, arith), s));
        assert(is_computed(arith, samples[k as int], s));
        r.push(s);
        k = k + 1;
    }
    r
}

/// Adds all samples to `start`, one after the other.
pub fn total_sum<A: Arithmetic>(
    durations: &Vec<Vec<Double>>,
    n: usize,
    start: Double,
    arith: &A,
) -> (r: Double)
    requires
        n <= durations.len(),
        forall|k: int| 0 <= k < n ==> (#[trigger] durations[k]).len() >= 1,
    ensures
        is_running_sum(arith, start, all_of(samples_of(rows_of(durations@), n as nat)), r),
{
    let ghost samples = samples_of(rows_of(durations@), n as nat);
    let mut r = start;
    let mut k: usize = 0;
    assert(all_of(samples.take(0)) =~= Seq::empty());
    while k < n
        invariant
            k <= n <= durations.len(),
            forall|k: int| 0 <= k < n ==> (#[trigger] durations[k]).len() >= 1,
            samples == samples_of(rows_of(durations@), n as nat),
            is_running_sum(arith, start, all_of(samples.take(k as int)), r),
        decreases n - k,
    {
        assert(durations[k as int].len() >= 1);
        let values = address_samples(durations, k);
        let next = running_sum(arith, r, values);
        proof {
            lemma_running_sum_append(
                arith,
                start,
                all_of(samples.take(k as int)),
                r,
                values@,
                next,
            );
            assert(samples.take(k + 1).drop_last() =~= samples.take(k as int));
            assert(samples.take(k + 1).last() == values@);
        }
        r = next;
        k = k + 1;
    }
    assert(samples.take(n as int) =~= samples);
    r
}

/// For each sample its average over the addresses.
pub fn average<A: Arithmetic>(
    durations: &Vec<Vec<Double>>,
    n: usize,
    num_samples: Count,
    arith: &A,
) -> (r: Vec<Double>)
    requires
        n <= durations.len(),
        forall|k: int| 0 <= k < n ==> 1 <= (#[trigger] durations[k]).len() <= num_samples + 1,
    ensures
        is_average(arith, samples_of(rows_of(durations@), n as nat), num_samples as nat, r@),
        r.len() == num_samples,
{
    let ghost samples = samples_of(rows_of(durations@), n as nat);
    let zero = Double::zero();
    let mut r: Vec<Double> = Vec::new();
    while r.len() < num_samples as usize
        invariant
            r.len() <= num_samples,
            zero == (Double { bits: ZERO_BITS }),
            forall|s: int| 0 <= s < r.len() ==> r[s] == zero,
        decreases num_samples - r.len(),
    {
        r.push(zero);
    }
    let divisor = arith.from_count(n as u128);
    assert(r@ =~= Seq::new(num_samples as nat, |s: int| Double { bits: ZERO_BITS }));
    let ghost mut stages: Seq<Seq<Double>> = seq![r@];
    let mut k: usize = 0;
    while k < n
        invariant
            k <= n <= durations.len(),
            forall|k: int| 0 <= k < n ==> 1 <= (#[trigger] durations[k]).len() <= num_samples + 1,
            samples == samples_of(rows_of(durations@), n as nat),
            r.len() == num_samples,
            stages.last() == r@,
            are_stages(arith, samples.take(k as int), divisor, num_samples as nat, stages),
        decreases n - k,
    {
        assert(1 <= durations[k as int].len() <= num_samples + 1);
        let row = address_samples(durations, k);
        let ghost before = r@;
        let mut s: usize = 0;
        while s < row.len()
            invariant
                s <= row.len(),
                row.len() <= num_samples,
                r.len() == num_samples,
                before.len() == num_samples,
                forall|t: int|
                    0 <= t < s ==> is_share_added_at(
                        arith,
                        row[t],
                        divisor,
                        before[t],
                        #[trigger] r[t],
                    ),
                forall|t: int| s <= t < num_samples ==> #[trigger] r[t] == before[t],
            decreases row.len() - s,
        {
            let q = arith.over(row[s], divisor);
            assert(is_over(arith, row[s as int], divisor, q));
            let sum = arith.plus(r[s], q);
            assert(is_share_added_at(arith, row[s as int], divisor, before[s as int], sum));
            r.set(s, sum);
            s = s + 1;
        }
        proof {
            assert(is_share_added(arith, row@, divisor, before, r@));
            let longer = samples.take(k + 1);
            let more = stages.push(r@);
            assert forall|m: int| 0 <= m < longer.len() implies #[trigger] is_share_added(
                arith,
                longer[m],
                divisor,
                more[m],
                more[m + 1],
            ) by {
                if m < k {
                    assert(is_share_added(
                        arith,
                        samples.take(k as int)[m],
                        divisor,
                        stages[m],
                        stages[m + 1],
                    ));
                }
            }
            stages = more;
        }
        k = k + 1;
    }
    proof {
        assert(samples.take(n as int) =~= samples);
        assert(is_count(arith, samples.len() as int, divisor));
    }
    r
}

} // verus!
