//! What a run tells and writes, in terms of what was measured.

use crate::args::CliArgs;
use crate::arithmetic::{
    averages_exactly, deviates_exactly, has_partial_sums, is_count, is_faithful,
    is_fixed, is_mean, is_over, is_plus, is_running_sum, is_square_root, is_std_dev,
    lemma_over_scaled, lemma_running_sum_exact, plain_mean, Arithmetic,
};
use crate::bench::csv_output::{
    csv_files, is_shown, matrix_table, rows_of, CsvFile, PerAddressRow, PerPairSummary,
};
use crate::bench::laws::{
    all_samples, by_mean, by_median, is_found_in, is_trace_of, lemma_run_account, lemma_trace,
    measured, rows_in, summaries_in,
};
use crate::bench::record::{
    is_cell_text, is_digest, is_record, is_recorded, is_run_of, lemma_no_stats, lemma_recorded,
    text_of, RecordError,
};
use crate::bench::report::{is_extreme_line, is_overall_line, is_report, report_of};
use crate::bench::samples::{
    all_of, are_stages, fits, is_average, is_share_added, is_share_added_at, means, medians,
    samples_of,
};
use crate::bench::schedule::Cursor;
use crate::bench::stats::{is_computed, Stats};
use crate::bench::sweep::{
    fresh, greatest_of, header_cells, is_step, least_of, run_bench, Extreme, PairRecord, Step, Sweep,
    SweepView,
};
use crate::bench::{Bench, Count};
use crate::cores::{ids_of, CoreId};
use crate::double::{
    has_quotient, is_value, lemma_named_numbers, total, unit, Double, NINETY_NINE_BITS, ZERO_BITS,
};
use crate::style::{bold_white, dimmed_white};
use crate::text::{decimal, left_aligned, lemma_aligned, right_aligned, spaces};
use vstd::arithmetic::power2::lemma_pow2_pos;
use vstd::prelude::*;

verus! {

/// The statistics that there are.
pub open spec fn present(stats: Seq<Option<Stats>>) -> Seq<Stats> {
    stats.filter(|s: Option<Stats>| s is Some).map_values(|s: Option<Stats>| s->0)
}

/// The means and the medians of the addresses are those of the statistics that there are,
/// in order.
proof fn lemma_present(stats: Seq<Option<Stats>>)
    ensures
        means(stats) == present(stats).map_values(|s: Stats| s.mean),
        medians(stats) == present(stats).map_values(|s: Stats| s.median),
    decreases stats.len(),
{
    let p = |s: Option<Stats>| s is Some;
    reveal(Seq::filter);
    if stats.len() > 0 {
        let front = stats.drop_last();
        lemma_present(front);
        if stats.last() is Some {
            assert(stats.filter(p) == front.filter(p).push(stats.last()));
        } else {
            assert(stats.filter(p) == front.filter(p));
        }
    }
    assert(means(stats) =~= present(stats).map_values(|s: Stats| s.mean));
    assert(medians(stats) =~= present(stats).map_values(|s: Stats| s.median));
}

/// Whether `r` are the statistics that `Stats::compute` gives for `values`.
pub open spec fn is_stats_of<A: Arithmetic>(
    arith: &A,
    values: Seq<Double>,
    r: Option<Stats>,
) -> bool {
    exists|v: &[Double]| #[trigger]
        call_ensures(Stats::compute::<A>, (v, arith), r) && v@ == values
}

/// Whether `r` is the mean that `plain_mean` gives for `values`.
pub open spec fn is_mean_of<A: Arithmetic>(arith: &A, values: Seq<Double>, r: Double) -> bool {
    exists|v: &[Double]| #[trigger]
        call_ensures(plain_mean::<A>, (arith, v), r) && v@ == values
}

/// Whether `rec` is what `samples`, those of each address, amount to. Each address has the
/// statistics of its samples. Where some address has any, the pair has the mean of their
/// means and the mean of their medians; and where tables were asked for, the statistics
/// of their means.
pub open spec fn is_outcome<A: Arithmetic>(
    arith: &A,
    csv: bool,
    samples: Seq<Seq<Double>>,
    rec: PairRecord,
) -> bool {
    let found = present(rec.stats@);
    &&& rec.stats@.len() == samples.len()
    &&& forall|a: int|
        0 <= a < samples.len() ==> #[trigger] is_stats_of(arith, samples[a], rec.stats@[a])
    &&& found.len() > 0 ==> is_mean_of(
        arith,
        found.map_values(|s: Stats| s.mean),
        rec.mean_of_means,
    )
    &&& found.len() > 0 ==> is_mean_of(
        arith,
        found.map_values(|s: Stats| s.median),
        rec.mean_of_medians,
    )
    &&& csv && found.len() > 0 ==> is_stats_of(
        arith,
        found.map_values(|s: Stats| s.mean),
        rec.pair_stats,
    )
    &&& csv && found.len() == 0 ==> rec.pair_stats is None
}

/// What is noted of a pair is what its samples amount to.
pub proof fn lemma_outcome<A: Arithmetic>(
    arith: &A,
    csv: bool,
    i: usize,
    j: usize,
    samples: Seq<Seq<Double>>,
    rec: PairRecord,
)
    requires
        is_digest(arith, csv, i, j, samples, rec),
    ensures
        rec.i == i,
        rec.j == j,
        is_outcome(arith, csv, samples, rec),
        rec.has_latency() <==> present(rec.stats@).len() > 0,
{
    lemma_present(rec.stats@);
    assert forall|a: int| 0 <= a < samples.len() implies #[trigger] is_stats_of(
        arith,
        samples[a],
        rec.stats@[a],
    ) by {
        assert(is_computed(arith, samples[a], rec.stats@[a]));
    }
    if !rec.has_latency() {
        lemma_no_stats(arith);
        assert(means(rec.stats@) =~= Seq::empty());
    }
}

/// The rows of a pair: one for each address that has statistics, in the order of the
/// addresses.
pub open spec fn record_rows(ids: Seq<usize>, ptrs: Seq<usize>, rec: PairRecord) -> Seq<
    PerAddressRow,
> {
    stats_rows(ids, ptrs, rec.i, rec.j, rec.numas@, rec.stats@)
}

/// The rows of the cores `i` and `j`.
pub open spec fn stats_rows(
    ids: Seq<usize>,
    ptrs: Seq<usize>,
    i: usize,
    j: usize,
    numas: Seq<usize>,
    stats: Seq<Option<Stats>>,
) -> Seq<PerAddressRow> {
    Seq::new(stats.len(), |a: int| (a, stats[a])).filter(
        |p: (int, Option<Stats>)| p.1 is Some,
    ).map_values(
        |p: (int, Option<Stats>)|
            PerAddressRow {
                ping_core: ids[i as int],
                pong_core: ids[j as int],
                ping_numa: 0,
                pong_numa: 0,
                mem_numa: numas[p.0],
                address: p.0 as usize,
                vaddr: if p.0 < ptrs.len() {
                    ptrs[p.0]
                } else {
                    0
                },
                mean: p.1->0.mean,
                median: p.1->0.median,
                min: p.1->0.min,
                max: p.1->0.max,
                cv_percent: p.1->0.cv_percent,
            },
    )
}

/// The rows that a pair adds to the table.
proof fn lemma_stats_rows(
    run: SweepView,
    i: usize,
    j: usize,
    numas: Seq<usize>,
    stats: Seq<Option<Stats>>,
)
    ensures
        run.address_rows(i, j, numas, stats) == stats_rows(
            run.ids,
            run.address_ptrs,
            i,
            j,
            numas,
            stats,
        ),
    decreases stats.len(),
{
    let p = |p: (int, Option<Stats>)| p.1 is Some;
    let all = Seq::new(stats.len(), |a: int| (a, stats[a]));
    reveal(Seq::filter);
    if stats.len() > 0 {
        let front = stats.drop_last();
        lemma_stats_rows(run, i, j, numas, front);
        let fewer = Seq::new(front.len(), |a: int| (a, front[a]));
        assert(all.drop_last() =~= fewer);
        if stats.last() is Some {
            assert(all.filter(p) == fewer.filter(p).push(all.last()));
        } else {
            assert(all.filter(p) == fewer.filter(p));
        }
    }
    assert(run.address_rows(i, j, numas, stats) =~= stats_rows(
        run.ids,
        run.address_ptrs,
        i,
        j,
        numas,
        stats,
    ));
}

/// The summary of a pair, with `s`, the statistics of its means.
pub open spec fn record_summary(ids: Seq<usize>, rec: PairRecord) -> PerPairSummary {
    PerPairSummary {
        ping_core: ids[rec.i as int],
        pong_core: ids[rec.j as int],
        ping_numa: 0,
        pong_numa: 0,
        mem_numa: rec.pair_numa,
        mean_of_means: rec.mean_of_means,
        mean_of_medians: rec.mean_of_medians,
        min: rec.pair_stats->0.min,
        max: rec.pair_stats->0.max,
        cv_percent: rec.pair_stats->0.cv_percent,
    }
}

/// The tables of a run: the rows of each pair, one pair after the other, and the summary of
/// each pair whose means have statistics.
pub proof fn lemma_run_tables(start: SweepView, run: SweepView, log: Seq<PairRecord>)
    requires
        is_found_in(start, run, log),
        run.csv,
    ensures
        run.per_address_rows == log.map_values(
            |rec: PairRecord| record_rows(start.ids, start.address_ptrs, rec),
        ).flatten(),
        run.per_pair_summaries == log.filter(
            |rec: PairRecord| rec.pair_stats is Some,
        ).map_values(|rec: PairRecord| record_summary(start.ids, rec)),
{
    lemma_tables(start, log);
}

/// The tables of the pairs of a log.
proof fn lemma_tables(start: SweepView, log: Seq<PairRecord>)
    ensures
        rows_in(start, log) == log.map_values(
            |rec: PairRecord| record_rows(start.ids, start.address_ptrs, rec),
        ).flatten(),
        summaries_in(start, log) == log.filter(
            |rec: PairRecord| rec.pair_stats is Some,
        ).map_values(|rec: PairRecord| record_summary(start.ids, rec)),
    decreases log.len(),
{
    let rows = |rec: PairRecord| record_rows(start.ids, start.address_ptrs, rec);
    let p = |rec: PairRecord| rec.pair_stats is Some;
    let summary = |rec: PairRecord| record_summary(start.ids, rec);
    reveal(Seq::filter);
    if log.len() > 0 {
        let front = log.drop_last();
        let rec = log.last();
        lemma_tables(start, front);
        lemma_stats_rows(start, rec.i, rec.j, rec.numas@, rec.stats@);
        front.map_values(rows).lemma_flatten_push(rows(rec));
        assert(log.map_values(rows) =~= front.map_values(rows).push(rows(rec)));
        if rec.pair_stats is Some {
            assert(log.filter(p) == front.filter(p).push(rec));
        } else {
            assert(log.filter(p) == front.filter(p));
        }
    } else {
        assert(log.map_values(rows) =~= Seq::empty());
    }
    assert(summaries_in(start, log) =~= log.filter(p).map_values(summary));
}

/// The means of means of the pairs that have one, with their cores.
pub open spec fn found_means(log: Seq<PairRecord>) -> Seq<Extreme> {
    log.filter(|rec: PairRecord| present(rec.stats@).len() > 0).map_values(
        |rec: PairRecord| Extreme { value: rec.mean_of_means, i: rec.i, j: rec.j },
    )
}

/// The means of medians of the pairs that have one, with their cores.
pub open spec fn found_medians(log: Seq<PairRecord>) -> Seq<Extreme> {
    log.filter(|rec: PairRecord| present(rec.stats@).len() > 0).map_values(
        |rec: PairRecord| Extreme { value: rec.mean_of_medians, i: rec.i, j: rec.j },
    )
}

/// The latencies of the pairs of a log.
proof fn lemma_found(log: Seq<PairRecord>)
    ensures
        by_mean(log) == found_means(log),
        by_median(log) == found_medians(log),
    decreases log.len(),
{
    let p = |rec: PairRecord| present(rec.stats@).len() > 0;
    reveal(Seq::filter);
    if log.len() > 0 {
        let front = log.drop_last();
        let rec = log.last();
        lemma_found(front);
        lemma_present(rec.stats@);
        if p(rec) {
            assert(log.filter(p) == front.filter(p).push(rec));
        } else {
            assert(log.filter(p) == front.filter(p));
        }
    }
    assert(by_mean(log) =~= found_means(log));
    assert(by_median(log) =~= found_medians(log));
}

/// The least that is kept is one of the latencies, and none is below it. Returns its
/// index.
pub proof fn lemma_least_kept(found: Seq<Extreme>) -> (k: int)
    requires
        found.len() > 0,
    ensures
        0 <= k < found.len(),
        least_of(found) == Some(found[k]),
        forall|m: int|
            0 <= m < found.len() ==> !(#[trigger] found[m]).value.below(found[k].value),
    decreases found.len(),
{
    let front = found.drop_last();
    let n = found.len() - 1;
    if front.len() == 0 {
        assert(least_of(front) == None::<Extreme>);
        0
    } else {
        let k = lemma_least_kept(front);
        assert forall|m: int| 0 <= m < front.len() implies #[trigger] found[m] == front[m] by {}
        if found[n].value.below(found[k].value) {
            n
        } else {
            k
        }
    }
}

/// The greatest that is kept is one of the latencies, and it is below none. Returns its
/// index.
pub proof fn lemma_greatest_kept(found: Seq<Extreme>) -> (k: int)
    requires
        found.len() > 0,
    ensures
        0 <= k < found.len(),
        greatest_of(found) == Some(found[k]),
        forall|m: int|
            0 <= m < found.len() ==> !found[k].value.below((#[trigger] found[m]).value),
    decreases found.len(),
{
    let front = found.drop_last();
    let n = found.len() - 1;
    if front.len() == 0 {
        assert(greatest_of(front) == None::<Extreme>);
        0
    } else {
        let k = lemma_greatest_kept(front);
        assert forall|m: int| 0 <= m < front.len() implies #[trigger] found[m] == front[m] by {}
        if found[k].value.below(found[n].value) {
            n
        } else {
            k
        }
    }
}

/// Whether `line` tells the latency `e`: with one decimal, behind `label`, and with the
/// numbers of its cores.
pub open spec fn tells<A: Arithmetic>(
    arith: &A,
    ids: Seq<usize>,
    label: Seq<char>,
    e: Extreme,
    line: Seq<char>,
) -> bool {
    exists|v: Seq<char>| #[trigger]
        is_shown(arith, e.value, 1, v) && line == label + bold_white(v) + "ns cores: ("@ + decimal(
            ids[e.i as int] as nat,
        ) + ","@ + decimal(ids[e.j as int] as nat) + ")\n"@
}

/// Whether `line` tells a least of the latencies that were found. It is empty where there
/// are none.
pub open spec fn tells_least<A: Arithmetic>(
    arith: &A,
    ids: Seq<usize>,
    found: Seq<Extreme>,
    line: Seq<char>,
) -> bool {
    &&& found.len() == 0 ==> line == Seq::<char>::empty()
    &&& found.len() > 0 ==> exists|k: int|
        {
            &&& 0 <= k < found.len()
            &&& tells(arith, ids, "      Min  latency: "@, #[trigger] found[k], line)
            &&& forall|m: int|
                0 <= m < found.len() ==> !(#[trigger] found[m]).value.below(found[k].value)
        }
}

/// Whether `line` tells a greatest of the latencies that were found. It is empty where
/// there are none.
pub open spec fn tells_greatest<A: Arithmetic>(
    arith: &A,
    ids: Seq<usize>,
    found: Seq<Extreme>,
    line: Seq<char>,
) -> bool {
    &&& found.len() == 0 ==> line == Seq::<char>::empty()
    &&& found.len() > 0 ==> exists|k: int|
        {
            &&& 0 <= k < found.len()
            &&& tells(arith, ids, "      Max  latency: "@, #[trigger] found[k], line)
            &&& forall|m: int|
                0 <= m < found.len() ==> !found[k].value.below((#[trigger] found[m]).value)
        }
}

/// All samples that were given, pair by pair and address by address.
pub open spec fn flat(given: Seq<Seq<Seq<Double>>>) -> Seq<Double> {
    given.map_values(|samples: Seq<Seq<Double>>| samples.flatten()).flatten()
}

/// Whether `mean` is `all`, added to zero one after the other, over their count.
pub open spec fn is_sum_over_count<A: Arithmetic>(
    arith: &A,
    all: Seq<Double>,
    mean: Double,
) -> bool {
    exists|sum: Double, n: Double|
        {
            &&& is_running_sum(arith, Double { bits: 0 }, all, sum)
            &&& #[trigger] call_ensures(A::from_count, (arith, all.len() as u128), n)
            &&& #[trigger] call_ensures(A::over, (arith, sum, n), mean)
        }
}

/// Whether `line` tells the mean of all samples with one decimal: times their number it is
/// their sum, where the arithmetic can be exact on them. It is empty where there are no
/// samples.
pub open spec fn tells_mean<A: Arithmetic>(
    arith: &A,
    all: Seq<Double>,
    line: Seq<char>,
) -> bool {
    &&& all.len() == 0 ==> line == Seq::<char>::empty()
    &&& all.len() > 0 ==> exists|mean: Double, v: Seq<char>|
        {
            &&& #[trigger] is_shown(arith, mean, 1, v)
            &&& line == "    Overall mean latency: "@ + bold_white(v) + "ns\n"@
            &&& is_sum_over_count(arith, all, mean)
            &&& is_faithful(arith) && has_partial_sums(all) && is_value(all.len() * unit())
                && has_quotient(total(all), all.len() as int) ==> mean.value() * all.len()
                == total(all)
        }
}

/// All samples, address by address.
proof fn lemma_all_of(samples: Seq<Seq<Double>>)
    ensures
        all_of(samples) == samples.flatten(),
    decreases samples.len(),
{
    if samples.len() > 0 {
        lemma_all_of(samples.drop_last());
        samples.drop_last().lemma_flatten_push(samples.last());
        assert(samples.drop_last().push(samples.last()) =~= samples);
    }
}

/// All samples, pair by pair.
proof fn lemma_all_samples(given: Seq<Seq<Seq<Double>>>)
    ensures
        all_samples(given) == flat(given),
    decreases given.len(),
{
    let f = |samples: Seq<Seq<Double>>| samples.flatten();
    if given.len() > 0 {
        let front = given.drop_last();
        lemma_all_samples(front);
        lemma_all_of(given.last());
        front.map_values(f).lemma_flatten_push(given.last().flatten());
        assert(given.map_values(f) =~= front.map_values(f).push(given.last().flatten()));
    } else {
        assert(given.map_values(f) =~= Seq::empty());
    }
}

/// The parts of a report.
pub struct ReportLines {
    pub min_median: Seq<char>,
    pub max_median: Seq<char>,
    pub min_mean: Seq<char>,
    pub max_mean: Seq<char>,
    pub overall: Seq<char>,
}

impl ReportLines {
    /// The report: an empty line, and the two sections with their headings.
    pub open spec fn parts(self) -> Seq<Seq<char>> {
        seq![
            "\n    "@,
            dimmed_white("Median-based stats"@),
            " (robust to outliers):\n"@,
            self.min_median,
            self.max_median,
            "    "@,
            dimmed_white("Mean-based stats"@),
            " (sensitive to outliers):\n"@,
            self.min_mean,
            self.max_mean,
            self.overall,
        ]
    }
}

/// What a report tells of a run, at any point of it and so at its end, over all pairs that
/// were measured. Under the heading of the statistics based on medians stand the least and
/// the greatest of the means of medians of the pairs; under that of the statistics based
/// on means, the least and the greatest of their means of means; and at the end the mean of
/// all samples. Returns the records of the pairs and the lines.
pub proof fn lemma_report<B: Bench, A: Arithmetic>(
    bench: &B,
    arith: &A,
    trace: Seq<SweepView>,
    given: Seq<Seq<Seq<Double>>>,
    run: &Sweep,
    text: String,
) -> (r: (Seq<PairRecord>, ReportLines))
    requires
        is_trace_of(bench, arith, trace, given),
        run@ == trace.last(),
        call_ensures(Sweep::report::<A>, (run, arith), text),
    ensures
        r.0.len() == given.len(),
        measured(trace) == r.0.map_values(|rec: PairRecord| (rec.i as int, rec.j as int)),
        forall|k: int|
            0 <= k < given.len() ==> is_outcome(arith, run.csv, given[k], #[trigger] r.0[k]),
        text@ == r.1.parts().flatten(),
        tells_least(arith, run@.ids, found_medians(r.0), r.1.min_median),
        tells_greatest(arith, run@.ids, found_medians(r.0), r.1.max_median),
        tells_least(arith, run@.ids, found_means(r.0), r.1.min_mean),
        tells_greatest(arith, run@.ids, found_means(r.0), r.1.max_mean),
        tells_mean(arith, flat(given), r.1.overall),
{
    lemma_trace(bench, arith, trace, given);
    let log = lemma_run_account(bench, arith, trace, given);
    let last = trace.last();
    assert(measured(trace) =~= log.map_values(|rec: PairRecord| (rec.i as int, rec.j as int)));
    assert forall|k: int| 0 <= k < given.len() implies is_outcome(
        arith,
        run.csv,
        given[k],
        #[trigger] log[k],
    ) by {
        lemma_outcome(arith, trace[0].csv, log[k].i, log[k].j, given[k], log[k]);
    }
    lemma_found(log);
    lemma_all_samples(given);
    let lines = lemma_report_lines(
        arith,
        last,
        found_medians(log),
        found_means(log),
        flat(given),
        text@,
    );
    (log, lines)
}

/// The lines of a report, in terms of the latencies and the samples of the run.
proof fn lemma_report_lines<A: Arithmetic>(
    arith: &A,
    run: SweepView,
    found_by_median: Seq<Extreme>,
    found_by_mean: Seq<Extreme>,
    all: Seq<Double>,
    text: Seq<char>,
) -> (r: ReportLines)
    requires
        is_report(arith, run, text),
        run.min_latency_by_median == least_of(found_by_median),
        run.max_latency_by_median == greatest_of(found_by_median),
        run.min_latency_by_mean == least_of(found_by_mean),
        run.max_latency_by_mean == greatest_of(found_by_mean),
        is_running_sum(arith, Double { bits: ZERO_BITS }, all, run.running_sum),
        run.running_count == all.len(),
        all.len() <= u64::MAX,
    ensures
        text == r.parts().flatten(),
        tells_least(arith, run.ids, found_by_median, r.min_median),
        tells_greatest(arith, run.ids, found_by_median, r.max_median),
        tells_least(arith, run.ids, found_by_mean, r.min_mean),
        tells_greatest(arith, run.ids, found_by_mean, r.max_mean),
        tells_mean(arith, all, r.overall),
{
    let (a, b, c, d, e) = choose|
        a: Seq<char>,
        b: Seq<char>,
        c: Seq<char>,
        d: Seq<char>,
        e: Seq<char>,
    |
        {
            &&& is_extreme_line(
                arith,
                run.ids,
                "      Min  latency: "@,
                run.min_latency_by_median,
                a,
            )
            &&& is_extreme_line(
                arith,
                run.ids,
                "      Max  latency: "@,
                run.max_latency_by_median,
                b,
            )
            &&& is_extreme_line(
                arith,
                run.ids,
                "      Min  latency: "@,
                run.min_latency_by_mean,
                c,
            )
            &&& is_extreme_line(
                arith,
                run.ids,
                "      Max  latency: "@,
                run.max_latency_by_mean,
                d,
            )
            &&& is_overall_line(arith, run.running_sum, run.running_count, e)
            &&& text == #[trigger] report_of(a, b, c, d, e)
        };
    lemma_tells_least(arith, run.ids, found_by_median, a);
    lemma_tells_greatest(arith, run.ids, found_by_median, b);
    lemma_tells_least(arith, run.ids, found_by_mean, c);
    lemma_tells_greatest(arith, run.ids, found_by_mean, d);
    lemma_tells_mean(arith, all, run.running_sum, e);
    let r = ReportLines { min_median: a, max_median: b, min_mean: c, max_mean: d, overall: e };
    lemma_report_parts(r);
    r
}

/// The line of the least that is kept.
proof fn lemma_tells_least<A: Arithmetic>(
    arith: &A,
    ids: Seq<usize>,
    found: Seq<Extreme>,
    line: Seq<char>,
)
    requires
        is_extreme_line(arith, ids, "      Min  latency: "@, least_of(found), line),
    ensures
        tells_least(arith, ids, found, line),
{
    if found.len() > 0 {
        let k = lemma_least_kept(found);
        lemma_tells(arith, ids, "      Min  latency: "@, found[k], line);
    }
}

/// The line of the greatest that is kept.
proof fn lemma_tells_greatest<A: Arithmetic>(
    arith: &A,
    ids: Seq<usize>,
    found: Seq<Extreme>,
    line: Seq<char>,
)
    requires
        is_extreme_line(arith, ids, "      Max  latency: "@, greatest_of(found), line),
    ensures
        tells_greatest(arith, ids, found, line),
{
    if found.len() > 0 {
        let k = lemma_greatest_kept(found);
        lemma_tells(arith, ids, "      Max  latency: "@, found[k], line);
    }
}

/// The line of a latency.
proof fn lemma_tells<A: Arithmetic>(
    arith: &A,
    ids: Seq<usize>,
    label: Seq<char>,
    e: Extreme,
    line: Seq<char>,
)
    requires
        is_extreme_line(arith, ids, label, Some(e), line),
    ensures
        tells(arith, ids, label, e, line),
{
    let v = choose|v: Seq<char>| #[trigger]
        is_fixed(arith, e.value, 1, v) && line == label + bold_white(v) + "ns cores: ("@ + decimal(
            ids[e.i as int] as nat,
        ) + ","@ + decimal(ids[e.j as int] as nat) + ")\n"@;
    assert(is_shown(arith, e.value, 1, v));
}

/// The line of the mean of all samples.
proof fn lemma_tells_mean<A: Arithmetic>(
    arith: &A,
    all: Seq<Double>,
    sum: Double,
    line: Seq<char>,
)
    requires
        is_running_sum(arith, Double { bits: ZERO_BITS }, all, sum),
        is_overall_line(arith, sum, all.len() as int, line),
        all.len() <= u64::MAX,
    ensures
        tells_mean(arith, all, line),
{
    if all.len() > 0 {
        let (n, mean, v) = choose|n: Double, mean: Double, v: Seq<char>|
            {
                &&& #[trigger] is_count(arith, all.len() as int, n)
                &&& #[trigger] is_over(arith, sum, n, mean)
                &&& #[trigger] is_fixed(arith, mean, 1, v)
                &&& line == "    Overall mean latency: "@ + bold_white(v) + "ns\n"@
            };
        assert(is_shown(arith, mean, 1, v));
        assert(call_ensures(A::from_count, (arith, all.len() as u128), n));
        assert(call_ensures(A::over, (arith, sum, n), mean));
        assert(is_sum_over_count(arith, all, mean));
        let k = all.len() as int;
        if is_faithful(arith) && has_partial_sums(all) && is_value(k * unit()) && has_quotient(
            total(all),
            k,
        ) {
            let u = unit();
            lemma_pow2_pos(1074);
            lemma_named_numbers();
            lemma_running_sum_exact(arith, Double { bits: ZERO_BITS }, all, sum);
            assert(call_ensures(A::from_count, (arith, all.len() as u128), n));
            assert(n.value() == k * u);
            let q = choose|q: Double| q.finite() && #[trigger] q.value() * k == total(all);
            lemma_over_scaled(q.value(), k, sum.value(), u);
            assert(k * u != 0) by (nonlinear_arith)
                requires
                    k > 0,
                    u > 0,
            ;
            assert(q.value() * n.value() == sum.value() * u);
            assert(call_ensures(A::over, (arith, sum, n), mean));
            lemma_over_scaled(mean.value(), k, sum.value(), u);
        }
    }
}

/// The parts of a report, one after the other.
proof fn lemma_report_parts(r: ReportLines)
    ensures
        report_of(r.min_median, r.max_median, r.min_mean, r.max_mean, r.overall)
            == r.parts().flatten(),
{
    let (a, b, c, d, e) = (r.min_median, r.max_median, r.min_mean, r.max_mean, r.overall);
    let x = dimmed_white("Median-based stats"@);
    let y = dimmed_white("Mean-based stats"@);
    let p = " (robust to outliers):\n"@;
    let q = " (sensitive to outliers):\n"@;
    let s1 = seq!["\n    "@];
    let s2 = s1.push(x);
    let s3 = s2.push(p);
    let s4 = s3.push(a);
    let s5 = s4.push(b);
    let s6 = s5.push("    "@);
    let s7 = s6.push(y);
    let s8 = s7.push(q);
    let s9 = s8.push(c);
    let s10 = s9.push(d);
    let s11 = s10.push(e);
    s1.lemma_flatten_one_element();
    s1.lemma_flatten_push(x);
    s2.lemma_flatten_push(p);
    s3.lemma_flatten_push(a);
    s4.lemma_flatten_push(b);
    s5.lemma_flatten_push("    "@);
    s6.lemma_flatten_push(y);
    s7.lemma_flatten_push(q);
    s8.lemma_flatten_push(c);
    s9.lemma_flatten_push(d);
    s10.lemma_flatten_push(e);
    assert(s11 =~= r.parts());
    assert(report_of(a, b, c, d, e) =~= s11.flatten());
}

/// The sample `s` of each address that has so many.
pub open spec fn column(samples: Seq<Seq<Double>>, s: int) -> Seq<Double> {
    samples.filter(|row: Seq<Double>| s < row.len()).map_values(|row: Seq<Double>| row[s])
}

/// Whether the arithmetic can be exact on the shares of a column: each number of it, and
/// each sum of its first numbers, over `n` is the value of a finite number.
pub open spec fn has_shares(samples: Seq<Seq<Double>>, s: int, n: int) -> bool {
    &&& forall|k: int|
        0 <= k <= samples.len() ==> has_quotient(
            total(#[trigger] column(samples.take(k), s)),
            n,
        )
    &&& forall|k: int|
        0 <= k < samples.len() && s < (#[trigger] samples[k]).len() ==> samples[k][s].finite()
            && has_quotient(samples[k][s].value(), n)
}

/// A column of one address more.
proof fn lemma_column_grows(samples: Seq<Seq<Double>>, k: int, s: int)
    requires
        0 <= k < samples.len(),
    ensures
        column(samples.take(k + 1), s) == if s < samples[k].len() {
            column(samples.take(k), s).push(samples[k][s])
        } else {
            column(samples.take(k), s)
        },
{
    let p = |row: Seq<Double>| s < row.len();
    reveal(Seq::filter);
    let longer = samples.take(k + 1);
    assert(longer.drop_last() =~= samples.take(k));
    assert(longer.last() == samples[k]);
    if p(samples[k]) {
        assert(longer.filter(p) == samples.take(k).filter(p).push(samples[k]));
    } else {
        assert(longer.filter(p) == samples.take(k).filter(p));
    }
    assert(column(longer, s) =~= if s < samples[k].len() {
        column(samples.take(k), s).push(samples[k][s])
    } else {
        column(samples.take(k), s)
    });
}

/// One more item adds its value to a sum.
proof fn lemma_total_push(s: Seq<Double>, d: Double)
    ensures
        total(s.push(d)) == total(s) + d.value(),
{
    assert(s.push(d).drop_last() =~= s);
}

/// The stages of an average hold the shares of the addresses so far.
proof fn lemma_stage_exact<A: Arithmetic>(
    arith: &A,
    samples: Seq<Seq<Double>>,
    divisor: Double,
    num_samples: nat,
    stages: Seq<Seq<Double>>,
    k: int,
    s: int,
)
    requires
        are_stages(arith, samples, divisor, num_samples, stages),
        is_faithful(arith),
        samples.len() > 0,
        divisor.finite(),
        divisor.value() == samples.len() * unit(),
        0 <= k <= samples.len(),
        0 <= s < num_samples,
        has_shares(samples, s, samples.len() as int),
    ensures
        stages[k].len() == num_samples,
        stages[k][s].finite(),
        stages[k][s].value() * samples.len() == total(column(samples.take(k), s)),
    decreases k,
{
    let n = samples.len() as int;
    let u = unit();
    lemma_pow2_pos(1074);
    lemma_named_numbers();
    if k == 0 {
        reveal(Seq::filter);
        assert(samples.take(0) =~= Seq::empty());
        assert(column(samples.take(0), s) =~= Seq::empty());
    } else {
        lemma_stage_exact(arith, samples, divisor, num_samples, stages, k - 1, s);
        lemma_column_grows(samples, k - 1, s);
        let row = samples[k - 1];
        let before = stages[k - 1];
        let out = stages[k - 1 + 1];
        assert(is_share_added(arith, samples[k - 1], divisor, stages[k - 1], stages[k - 1 + 1]));
        if s < row.len() {
            let v = row[s];
            assert(is_share_added_at(arith, row[s], divisor, before[s], out[s]));
            let q = choose|q: Double| #[trigger]
                is_over(arith, v, divisor, q) && is_plus(arith, before[s], q, out[s]);
            let x = choose|x: Double| x.finite() && #[trigger] x.value() * n == v.value();
            lemma_over_scaled(x.value(), n, v.value(), u);
            assert(n * u != 0) by (nonlinear_arith)
                requires
                    n > 0,
                    u > 0,
            ;
            assert(x.value() * divisor.value() == v.value() * u);
            assert(call_ensures(A::over, (arith, v, divisor), q));
            lemma_over_scaled(q.value(), n, v.value(), u);
            lemma_total_push(column(samples.take(k - 1), s), v);
            let sum = total(column(samples.take(k), s));
            let y = choose|y: Double| y.finite() && #[trigger] y.value() * n == sum;
            assert(y.value() == before[s].value() + q.value()) by (nonlinear_arith)
                requires
                    y.value() * n == sum,
                    before[s].value() * n + v.value() == sum,
                    q.value() * n == v.value(),
                    n > 0,
            ;
            assert(is_value(before[s].value() + q.value()));
            assert(call_ensures(A::plus, (arith, before[s], q), out[s]));
            assert(out[s].value() * n == sum) by (nonlinear_arith)
                requires
                    out[s].value() == before[s].value() + q.value(),
                    before[s].value() * n + v.value() == sum,
                    q.value() * n == v.value(),
            ;
        } else {
            assert(out[s] == before[s]);
        }
    }
}

/// What is shown of a pair.
pub struct Cell {
    /// For each sample its average over the addresses.
    pub avg: Seq<Double>,
    pub mean: Double,
    /// The standard deviation over the square root of the number of samples.
    pub err: Double,
    pub mean_text: Seq<char>,
    pub err_text: Seq<char>,
}

/// The smaller of two numbers.
pub open spec fn smaller(a: int, b: int) -> int {
    if a < b {
        a
    } else {
        b
    }
}

/// Whether the square root of the count `n` has the value `root`.
pub open spec fn has_root<A: Arithmetic>(arith: &A, n: u128, root: int) -> bool {
    forall|c: Double, r: Double| #[trigger]
        call_ensures(A::from_count, (arith, n), c) && #[trigger] call_ensures(
            A::square_root,
            (arith, c),
            r,
        ) ==> r.finite() && r.value() == root
}

/// Whether `err` is the standard deviation of `avg`, or 99 where it is more or no number,
/// over the square root of the count `n`.
pub open spec fn is_error_of<A: Arithmetic>(
    arith: &A,
    avg: Seq<Double>,
    n: u128,
    err: Double,
) -> bool {
    exists|v: &[Double], dev: Double, count: Double, root: Double|
        {
            let capped = if dev.nan() || dev.value() > 99 * unit() {
                Double { bits: 0x4058_c000_0000_0000 }
            } else {
                dev
            };
            &&& v@ == avg
            &&& #[trigger] call_ensures(A::std_dev, (arith, v), dev)
            &&& #[trigger] call_ensures(A::from_count, (arith, n), count)
            &&& #[trigger] call_ensures(A::square_root, (arith, count), root)
            &&& call_ensures(A::over, (arith, capped, root), err)
        }
}

/// The durations of the first `n` addresses behind the first of each.
pub open spec fn behind_first(durations: Seq<Seq<Double>>, n: nat) -> Seq<Seq<Double>> {
    Seq::new(n, |a: int| durations[a].skip(1))
}

/// Whether each of `avg` times the number of addresses is the sum of that sample over the
/// addresses, wherever the arithmetic can be exact on it.
pub open spec fn averages_addresses<A: Arithmetic>(
    arith: &A,
    samples: Seq<Seq<Double>>,
    avg: Seq<Double>,
) -> bool {
    let n = samples.len() as int;
    forall|s: int|
        0 <= s < avg.len() && is_faithful(arith) && n > 0 && is_value(n * unit()) && has_shares(
            samples,
            s,
            n,
        ) ==> (#[trigger] avg[s]).value() * n == total(column(samples, s))
}

/// The average over the addresses.
proof fn lemma_average<A: Arithmetic>(
    arith: &A,
    samples: Seq<Seq<Double>>,
    num_samples: nat,
    avg: Seq<Double>,
)
    requires
        is_average(arith, samples, num_samples, avg),
        samples.len() <= usize::MAX,
    ensures
        avg.len() == num_samples,
        averages_addresses(arith, samples, avg),
{
    let n = samples.len() as int;
    let (divisor, stages) = choose|divisor: Double, stages: Seq<Seq<Double>>|
        {
            &&& #[trigger] is_count(arith, samples.len() as int, divisor)
            &&& #[trigger] are_stages(arith, samples, divisor, num_samples, stages)
            &&& avg == stages.last()
        };
    lemma_stages_len(arith, samples, divisor, num_samples, stages, n);
    assert forall|s: int|
        0 <= s < avg.len() && is_faithful(arith) && n > 0 && is_value(n * unit()) && has_shares(
            samples,
            s,
            n,
        ) implies (#[trigger] avg[s]).value() * n == total(column(samples, s)) by {
        assert(call_ensures(A::from_count, (arith, n as u128), divisor));
        lemma_stage_exact(arith, samples, divisor, num_samples, stages, n, s);
        assert(samples.take(n) =~= samples);
    }
}

/// Whether `cell` is what `text` shows of the averages: their mean without decimals, four
/// wide, and behind it their standard deviation, which counts as 99 at most, over the
/// square root of the number of samples, two wide.
pub open spec fn is_cell_of<A: Arithmetic>(
    arith: &A,
    num_samples: u128,
    cell: Cell,
    text: Seq<char>,
) -> bool {
    &&& exists|v: &[Double]| v@ == cell.avg && #[trigger]
        call_ensures(A::mean, (arith, v), cell.mean)
    &&& is_error_of(arith, cell.avg, num_samples, cell.err)
    &&& is_shown(arith, cell.mean, 0, cell.mean_text)
    &&& is_shown(arith, cell.err, 0, cell.err_text)
    &&& text == " "@ + bold_white(right_aligned(cell.mean_text, 4)) + dimmed_white(
        "+-"@ + left_aligned(cell.err_text, 2),
    )
}

/// The text of a pair.
proof fn lemma_cell<A: Arithmetic>(
    arith: &A,
    avg: Seq<Double>,
    num_samples: u32,
    text: Seq<char>,
) -> (cell: Cell)
    requires
        is_cell_text(arith, avg, num_samples as int, text),
    ensures
        cell.avg == avg,
        is_cell_of(arith, num_samples as u128, cell, text),
{
    let (mean, d, c, root, err, m, e) = choose|
        mean: Double,
        dev: Double,
        n: Double,
        root: Double,
        err: Double,
        m: Seq<char>,
        e: Seq<char>,
    |
        {
            &&& #[trigger] is_mean(arith, avg, mean)
            &&& #[trigger] is_std_dev(arith, avg, dev)
            &&& #[trigger] is_count(arith, num_samples as int, n)
            &&& #[trigger] is_square_root(arith, n, root)
            &&& #[trigger] is_over(
                arith,
                dev.lesser(Double { bits: NINETY_NINE_BITS }),
                root,
                err,
            )
            &&& #[trigger] is_fixed(arith, mean, 0, m)
            &&& #[trigger] is_fixed(arith, err, 0, e)
            &&& text == " "@ + bold_white(right_aligned(m, 4)) + dimmed_white(
                "+-"@ + left_aligned(e, 2),
            )
        };
    let w = choose|w: &[Double]| w@ == avg && #[trigger] call_ensures(A::std_dev, (arith, w), d);
    assert(is_shown(arith, mean, 0, m));
    assert(is_shown(arith, err, 0, e));
    assert(call_ensures(A::from_count, (arith, num_samples as u128), c));
    assert(call_ensures(A::square_root, (arith, c), root));
    assert(is_error_of(arith, avg, num_samples as u128, err)) by {
        lemma_named_numbers();
    }
    let cell = Cell { avg, mean, err, mean_text: m, err_text: e };
    let v = choose|v: &[Double]| v@ == avg && #[trigger] call_ensures(A::mean, (arith, v), mean);
    assert(v@ == cell.avg && call_ensures(A::mean, (arith, v), cell.mean));
    assert(text == " "@ + bold_white(right_aligned(cell.mean_text, 4)) + dimmed_white(
        "+-"@ + left_aligned(cell.err_text, 2),
    ));
    assert(is_cell_of(arith, num_samples as u128, cell, text));
    cell
}

/// Where the arithmetic averages exactly, the mean of a pair times the number of samples is
/// the sum of the averages. Where the standard deviation has the value `dev` and the square
/// root the value `root`, and the arithmetic can be exact, the error times the root is the
/// deviation, or 99 where it is more.
pub proof fn lemma_cell_exact<A: Arithmetic>(
    arith: &A,
    num_samples: u128,
    cell: Cell,
    text: Seq<char>,
    dev: int,
    root: int,
)
    requires
        is_cell_of(arith, num_samples, cell, text),
    ensures
        averages_exactly(arith, cell.avg) ==> cell.mean.value() * cell.avg.len() == total(
            cell.avg,
        ),
        is_faithful(arith) && deviates_exactly(arith, cell.avg, dev) && has_root(
            arith,
            num_samples,
            root,
        ) && root > 0 && has_quotient(smaller(dev, 99 * unit()) * unit(), root)
            ==> cell.err.value() * root == smaller(dev, 99 * unit()) * unit(),
{
    let v = choose|v: &[Double]| v@ == cell.avg && #[trigger]
        call_ensures(A::mean, (arith, v), cell.mean);
    if is_faithful(arith) && deviates_exactly(arith, cell.avg, dev) && has_root(
        arith,
        num_samples,
        root,
    ) && root > 0 && has_quotient(smaller(dev, 99 * unit()) * unit(), root) {
        lemma_named_numbers();
        let (w, d, c, r) = choose|w: &[Double], d: Double, c: Double, r: Double|
            {
                let capped = if d.nan() || d.value() > 99 * unit() {
                    Double { bits: 0x4058_c000_0000_0000 }
                } else {
                    d
                };
                &&& w@ == cell.avg
                &&& #[trigger] call_ensures(A::std_dev, (arith, w), d)
                &&& #[trigger] call_ensures(A::from_count, (arith, num_samples), c)
                &&& #[trigger] call_ensures(A::square_root, (arith, c), r)
                &&& call_ensures(A::over, (arith, capped, r), cell.err)
            };
        let capped = if d.nan() || d.value() > 99 * unit() {
            Double { bits: 0x4058_c000_0000_0000 }
        } else {
            d
        };
        assert(d.value() == dev && r.value() == root);
        assert(capped.finite() && capped.value() == smaller(dev, 99 * unit()));
        assert(call_ensures(A::over, (arith, capped, r), cell.err));
    }
}

/// What is recorded of a pair, where its durations fit: each address has its duration that
/// warms up and no more samples than were asked for, and what counts is the durations
/// behind the first. The text shows the averages of the samples over the addresses. Returns
/// what is shown.
pub proof fn lemma_recorded_text<B: Bench, A: Arithmetic>(
    bench: &B,
    arith: &A,
    pre: SweepView,
    durations: Seq<Seq<Double>>,
    text: Seq<char>,
    post: SweepView,
) -> (cell: Cell)
    requires
        is_record(bench, arith, pre, durations, Ok(text), post),
        pre.current() is Some,
    ensures
        forall|a: int|
            0 <= a < pre.num_addresses ==> #[trigger] is_complete(
                durations,
                a,
                pre.num_samples as int,
            ),
        is_recorded(
            bench,
            arith,
            pre,
            (pre.current()->0).0,
            (pre.current()->0).1,
            behind_first(durations, pre.num_addresses as nat),
            post,
        ),
        cell.avg.len() == pre.num_samples,
        averages_addresses(
            arith,
            behind_first(durations, pre.num_addresses as nat),
            cell.avg,
        ),
        is_cell_of(arith, pre.num_samples as u128, cell, text),
{
    let n = pre.num_addresses as nat;
    let asked = pre.num_samples as nat;
    let samples = behind_first(durations, n);
    assert(samples_of(durations, n) =~= samples);
    assert forall|a: int| 0 <= a < n implies #[trigger] is_complete(
        durations,
        a,
        pre.num_samples as int,
    ) by {
        assert(fits(durations, asked, a));
    }
    let avg = choose|avg: Seq<Double>| #[trigger]
        is_average(arith, samples, asked, avg) && is_cell_text(
            arith,
            avg,
            pre.num_samples as int,
            text,
        );
    lemma_average(arith, samples, asked, avg);
    lemma_cell(arith, avg, pre.num_samples, text)
}

/// Every stage of an average has a number for each sample.
proof fn lemma_stages_len<A: Arithmetic>(
    arith: &A,
    samples: Seq<Seq<Double>>,
    divisor: Double,
    num_samples: nat,
    stages: Seq<Seq<Double>>,
    k: int,
)
    requires
        are_stages(arith, samples, divisor, num_samples, stages),
        0 <= k <= samples.len(),
    ensures
        stages[k].len() == num_samples,
    decreases k,
{
    if k > 0 {
        lemma_stages_len(arith, samples, divisor, num_samples, stages, k - 1);
        assert(is_share_added(arith, samples[k - 1], divisor, stages[k - 1], stages[k - 1 + 1]));
    }
}

/// Whether there is a duration that warms up for the address `a`, and behind it at most
/// `num_samples` more.
pub open spec fn is_complete(durations: Seq<Seq<Double>>, a: int, num_samples: int) -> bool {
    &&& a < durations.len()
    &&& durations[a].len() - 1 >= 0
    &&& durations[a].len() - 1 <= num_samples
}

/// Durations are rejected where they do not fit, and at the first address where they do
/// not: it is missing, lacks the duration that warms up, or has more samples than were
/// asked for. Nothing changes then.
pub proof fn lemma_record_rejected<B: Bench, A: Arithmetic>(
    bench: &B,
    arith: &A,
    pre: SweepView,
    durations: Seq<Seq<Double>>,
    address: usize,
    post: SweepView,
)
    requires
        is_record(
            bench,
            arith,
            pre,
            durations,
            Err(RecordError::Shape { address }),
            post,
        ),
    ensures
        post == pre,
        address < pre.num_addresses,
        !is_complete(durations, address as int, pre.num_samples as int),
        forall|a: int|
            0 <= a < address ==> #[trigger] is_complete(durations, a, pre.num_samples as int),
{
    assert forall|a: int| 0 <= a < address implies #[trigger] is_complete(
        durations,
        a,
        pre.num_samples as int,
    ) by {
        assert(fits(durations, pre.num_samples as nat, a));
    }
}

/// A run starts as it was asked for: over the cores that are given, with the tables, the
/// iterations and the samples of the arguments and the addresses of the benchmark, which
/// answers for them.
pub proof fn lemma_run_starts<B: Bench>(
    cores: Vec<CoreId>,
    args: &CliArgs,
    bench: &B,
    run: Sweep,
)
    requires
        call_ensures(run_bench::<B>, (cores, args, bench), run),
    ensures
        run.cores@ == cores@,
        run.csv == args.csv,
        run.num_iterations == args.num_iterations,
        run.num_samples == args.num_samples,
        call_ensures(B::num_addresses, (bench,), run.num_addresses),
        exists|ptrs: Vec<usize>| #[trigger]
            call_ensures(B::address_ptrs, (bench,), ptrs) && run.address_ptrs@ == ptrs@,
        run@.is_at_start(),
{
    let ptrs = choose|ptrs: Vec<usize>| #[trigger]
        call_ensures(B::address_ptrs, (bench,), ptrs) && run@ == fresh(
            ids_of(cores@),
            *args,
            run.num_addresses,
            ptrs@,
        );
    assert(run.address_ptrs@ == ptrs@);
}

/// The cores that are measured are those that the run stands at, the first of the pair as
/// ping.
pub proof fn lemma_measured_cores(run: Sweep, i: usize, j: usize)
    requires
        run.cursor == Cursor::Pair(i, j),
    ensures
        run.current_cores().0 == run.cores@[i as int],
        run.current_cores().1 == run.cores@[j as int],
{
}

/// What a benchmark is asked to measure is what it is handed.
pub proof fn lemma_handed_over<B: Bench>(
    bench: &B,
    cores: (CoreId, CoreId),
    num_iterations: Count,
    num_samples: Count,
    durations: Vec<Vec<Double>>,
)
    requires
        is_run_of(bench, cores, num_iterations, num_samples as int, durations),
    ensures
        call_ensures(B::run, (bench, cores, num_iterations, num_samples), durations),
{
}

/// The line above the matrix has a field of nine characters for each core, behind a margin
/// of seven: the number of the core stands at the right end of its first five, for
/// numbers of up to four digits.
pub proof fn lemma_header_fields(run: &Sweep, text: String, k: int)
    requires
        call_ensures(Sweep::header_text, (run,), text),
        0 <= k < run.cores@.len(),
        forall|m: int|
            0 <= m < run.cores@.len() ==> decimal((#[trigger] run.cores@[m]).id as nat).len() <= 4,
    ensures
        text@.len() == 8 + 9 * run.cores@.len(),
        text@.take(7) == Seq::new(7, |i: int| ' '),
        text@.subrange(7 + 9 * k, 7 + 9 * k + 9) == right_aligned(
            decimal(run.cores@[k].id as nat),
            5,
        ) + Seq::new(4, |i: int| ' '),
        text@.last() == '\n',
{
    let ids = run@.ids;
    assert forall|m: int| 0 <= m < ids.len() implies decimal(#[trigger] ids[m] as nat).len()
        <= 4 by {
        assert(run.cores@[m].id == ids[m]);
    }
    lemma_header_cells(ids, k);
    let cells = header_cells(ids);
    reveal_strlit("\n");
    assert(spaces(7) =~= Seq::new(7, |i: int| ' '));
    assert(text@ == spaces(7) + cells + "\n"@);
    assert(text@.take(7) =~= Seq::new(7, |i: int| ' '));
    assert(text@.subrange(7 + 9 * k, 7 + 9 * k + 9) =~= cells.subrange(9 * k, 9 * k + 9));
}

/// The fields of the line above the matrix.
proof fn lemma_header_cells(ids: Seq<usize>, k: int)
    requires
        0 <= k,
        forall|m: int| 0 <= m < ids.len() ==> decimal(#[trigger] ids[m] as nat).len() <= 4,
    ensures
        header_cells(ids).len() == 9 * ids.len(),
        k < ids.len() ==> header_cells(ids).subrange(9 * k, 9 * k + 9) == right_aligned(
            decimal(ids[k] as nat),
            5,
        ) + Seq::new(4, |i: int| ' '),
    decreases ids.len(),
{
    if ids.len() > 0 {
        let front = ids.drop_last();
        let n = front.len() as int;
        assert forall|m: int| 0 <= m < front.len() implies decimal(#[trigger] front[m] as nat).len()
            <= 4 by {
            assert(front[m] == ids[m]);
        }
        lemma_header_cells(front, k);
        let s = decimal(ids[n] as nat);
        reveal_strlit(" ");
        let field = " "@ + right_aligned(s, 4) + spaces(4);
        assert(header_cells(ids) =~= header_cells(front) + field);
        lemma_aligned(s, 4);
        assert(field =~= right_aligned(s, 5) + Seq::new(4, |i: int| ' '));
        if k < n {
            assert(header_cells(ids).subrange(9 * k, 9 * k + 9) =~= header_cells(front).subrange(
                9 * k,
                9 * k + 9,
            ));
        } else if k == n {
            assert(header_cells(ids).subrange(9 * k, 9 * k + 9) =~= field);
        }
    }
}

/// What is printed between the pairs: before each row four spaces and the number of its
/// core at the right end of a field of three; a blank of nine where a core would meet
/// itself; and the end of the line behind each row.
pub proof fn lemma_printed(pre: SweepView, symmetric: bool, text: String, post: SweepView)
    requires
        is_step(pre, symmetric, Step::Print(text), post),
    ensures
        match pre.cursor {
            Cursor::Row(i) => i < pre.ids.len() && text@ == Seq::new(4, |i: int| ' ')
                + right_aligned(decimal(pre.ids[i as int] as nat), 3),
            Cursor::Cell(i, j) => if j < pre.ids.len() {
                i == j && !symmetric && text@ == Seq::new(9, |i: int| ' ')
            } else {
                text@ == seq!['\n']
            },
            Cursor::Pair(_, _) => false,
        },
{
    reveal_strlit("\n");
    match pre.cursor {
        Cursor::Row(i) => {
            assert(spaces(4) =~= Seq::new(4, |i: int| ' '));
        },
        Cursor::Cell(i, j) => {
            if j < pre.ids.len() {
                assert(text@ =~= Seq::new(9, |i: int| ' '));
            } else {
                assert(text@ =~= seq!['\n']);
            }
        },
        _ => {},
    }
}

/// Where the benchmark always answers that the memory is on the node `m`, every row and
/// every summary of a run says so.
pub proof fn lemma_numa_told<B: Bench, A: Arithmetic>(
    bench: &B,
    arith: &A,
    trace: Seq<SweepView>,
    given: Seq<Seq<Seq<Double>>>,
    m: usize,
)
    requires
        is_trace_of(bench, arith, trace, given),
        forall|answer: usize| #[trigger]
            call_ensures(B::mem_numa, (bench,), answer) ==> answer == m,
    ensures
        forall|k: int|
            0 <= k < trace.last().per_address_rows.len() ==> (
            #[trigger] trace.last().per_address_rows[k]).mem_numa == m,
        forall|k: int|
            0 <= k < trace.last().per_pair_summaries.len() ==> (
            #[trigger] trace.last().per_pair_summaries[k]).mem_numa == m,
{
    lemma_trace(bench, arith, trace, given);
    let log = lemma_run_account(bench, arith, trace, given);
    if trace[0].csv {
        lemma_numas(trace[0], log, m);
    }
}

/// The nodes in the tables of a log.
proof fn lemma_numas(start: SweepView, log: Seq<PairRecord>, m: usize)
    requires
        forall|k: int| 0 <= k < log.len() ==> #[trigger] is_on_node(log[k], m),
    ensures
        forall|k: int|
            0 <= k < rows_in(start, log).len() ==> (#[trigger] rows_in(start, log)[k]).mem_numa
                == m,
        forall|k: int|
            0 <= k < summaries_in(start, log).len() ==> (
            #[trigger] summaries_in(start, log)[k]).mem_numa == m,
    decreases log.len(),
{
    if log.len() > 0 {
        let front = log.drop_last();
        let rec = log.last();
        assert forall|k: int| 0 <= k < front.len() implies #[trigger] is_on_node(front[k], m) by {
            assert(is_on_node(log[k], m));
        }
        lemma_numas(start, front, m);
        assert(is_on_node(log[log.len() - 1], m));
        lemma_row_numas(start, rec.i, rec.j, rec.numas@, rec.stats@, m);
        let before = rows_in(start, front);
        let more = start.address_rows(rec.i, rec.j, rec.numas@, rec.stats@);
        assert forall|k: int| 0 <= k < rows_in(start, log).len() implies (
        #[trigger] rows_in(start, log)[k]).mem_numa == m by {
            if k < before.len() {
                assert(rows_in(start, log)[k] == before[k]);
            } else {
                assert(rows_in(start, log)[k] == more[k - before.len()]);
            }
        }
        let early = summaries_in(start, front);
        assert forall|k: int| 0 <= k < summaries_in(start, log).len() implies (
        #[trigger] summaries_in(start, log)[k]).mem_numa == m by {
            if k < early.len() {
                assert(summaries_in(start, log)[k] == early[k]);
            }
        }
    }
}

/// Whether all answers about the memory in `rec` that count are `m`.
spec fn is_on_node(rec: PairRecord, m: usize) -> bool {
    &&& forall|a: int|
        0 <= a < rec.stats@.len() && rec.stats@[a] is Some ==> #[trigger] rec.numas@[a] == m
    &&& rec.pair_stats is Some ==> rec.pair_numa == m
}

/// The nodes in the rows of a pair.
proof fn lemma_row_numas(
    start: SweepView,
    i: usize,
    j: usize,
    numas: Seq<usize>,
    stats: Seq<Option<Stats>>,
    m: usize,
)
    requires
        forall|a: int| 0 <= a < stats.len() && stats[a] is Some ==> #[trigger] numas[a] == m,
    ensures
        forall|k: int|
            0 <= k < start.address_rows(i, j, numas, stats).len() ==> (
            #[trigger] start.address_rows(i, j, numas, stats)[k]).mem_numa == m,
    decreases stats.len(),
{
    if stats.len() > 0 {
        let front = stats.drop_last();
        assert forall|a: int| 0 <= a < front.len() && front[a] is Some implies #[trigger] numas[a]
            == m by {
            assert(front[a] == stats[a]);
        }
        lemma_row_numas(start, i, j, numas, front, m);
        let before = start.address_rows(i, j, numas, front);
        assert(stats.last() == stats[stats.len() - 1]);
        assert forall|k: int| 0 <= k < start.address_rows(i, j, numas, stats).len() implies (
        #[trigger] start.address_rows(i, j, numas, stats)[k]).mem_numa == m by {
            if k < before.len() {
                assert(start.address_rows(i, j, numas, stats)[k] == before[k]);
            }
        }
    }
}

/// The line above the matrix, for numbers of any length: a margin of seven, and for each
/// core a space, its number at the right end of a field of four, and four spaces.
pub proof fn lemma_header_parts(run: &Sweep, text: String)
    requires
        call_ensures(Sweep::header_text, (run,), text),
    ensures
        text@ == Seq::new(7, |i: int| ' ') + run.cores@.map_values(
            |c: CoreId|
                seq![' '] + right_aligned(decimal(c.id as nat), 4) + Seq::new(4, |i: int| ' '),
        ).flatten() + seq!['\n'],
{
    reveal_strlit("\n");
    let f = |c: CoreId|
        seq![' '] + right_aligned(decimal(c.id as nat), 4) + Seq::new(4, |i: int| ' ');
    lemma_header_flat(run.cores@);
    assert("\n"@ =~= seq!['\n']);
    assert(text@ =~= Seq::new(7, |i: int| ' ') + run.cores@.map_values(f).flatten() + seq!['\n']);
}

/// The fields of the line above the matrix, one after the other.
proof fn lemma_header_flat(cores: Seq<CoreId>)
    ensures
        header_cells(ids_of(cores)) == cores.map_values(
            |c: CoreId|
                seq![' '] + right_aligned(decimal(c.id as nat), 4) + Seq::new(4, |i: int| ' '),
        ).flatten(),
    decreases cores.len(),
{
    let f = |c: CoreId|
        seq![' '] + right_aligned(decimal(c.id as nat), 4) + Seq::new(4, |i: int| ' ');
    let ids = ids_of(cores);
    if cores.len() > 0 {
        let front = cores.drop_last();
        lemma_header_flat(front);
        assert(ids.drop_last() =~= ids_of(front));
        front.map_values(f).lemma_flatten_push(f(cores.last()));
        assert(cores.map_values(f) =~= front.map_values(f).push(f(cores.last())));
        reveal_strlit(" ");
        assert(" "@ =~= seq![' ']);
        assert(spaces(4) =~= Seq::new(4, |i: int| ' '));
        let s = right_aligned(decimal(cores.last().id as nat), 4);
        assert(header_cells(ids) =~= header_cells(ids_of(front)) + (seq![' '] + s + Seq::new(
            4,
            |i: int| ' ',
        )));
    } else {
        assert(cores.map_values(f) =~= Seq::empty());
    }
}

/// To measure a pair is to run the benchmark on its two cores, the one of the row as ping
/// and the one of the column as pong, with the iterations that were asked for and one
/// sample more, and to record what comes back.
pub proof fn lemma_measure<B: Bench, A: Arithmetic>(
    run: &mut Sweep,
    bench: &B,
    arith: &A,
    r: Result<String, RecordError>,
    i: usize,
    j: usize,
)
    requires
        call_ensures(Sweep::measure::<B, A>, (run, bench, arith), r),
        old(run).cursor == Cursor::Pair(i, j),
        old(run)@.well_formed(),
    ensures
        exists|durations: Vec<Vec<Double>>|
            {
                &&& #[trigger] call_ensures(
                    B::run,
                    (
                        bench,
                        (old(run).cores@[i as int], old(run).cores@[j as int]),
                        old(run).num_iterations,
                        (old(run).num_samples + 1) as Count,
                    ),
                    durations,
                )
                &&& is_record(
                    bench,
                    arith,
                    old(run)@,
                    durations@.map_values(|row: Vec<Double>| row@),
                    match r {
                        Ok(t) => Ok(t@),
                        Err(e) => Err(e),
                    },
                    final(run)@,
                )
            },
{
    let durations = choose|durations: Vec<Vec<Double>>|
        {
            &&& #[trigger] is_run_of(
                bench,
                old(run).current_cores(),
                old(run).num_iterations,
                1 + old(run).num_samples,
                durations,
            )
            &&& is_record(
                bench,
                arith,
                old(run)@,
                rows_of(durations@),
                text_of(r),
                final(run)@,
            )
        };
    assert(call_ensures(
        B::run,
        (
            bench,
            (old(run).cores@[i as int], old(run).cores@[j as int]),
            old(run).num_iterations,
            (old(run).num_samples + 1) as Count,
        ),
        durations,
    ));
}

/// To record durations is to take up what they amount to, or to reject them.
pub proof fn lemma_record<B: Bench, A: Arithmetic>(
    run: &mut Sweep,
    durations: &Vec<Vec<Double>>,
    bench: &B,
    arith: &A,
    r: Result<String, RecordError>,
)
    requires
        call_ensures(Sweep::record::<B, A>, (run, durations, bench, arith), r),
        old(run)@.well_formed(),
        old(run)@.current() is Some,
    ensures
        ({
            let rows = durations@.map_values(|row: Vec<Double>| row@);
            let n = old(run).num_addresses as int;
            let fit = forall|a: int|
                0 <= a < n ==> #[trigger] is_complete(rows, a, old(run).num_samples as int);
            let count = Seq::new(n as nat, |a: int| rows[a].skip(1)).flatten().len();
            &&& r is Ok <==> fit && old(run).running_count + count <= u64::MAX
            &&& r is Ok ==> final(run).running_count == old(run).running_count + count
            &&& r is Err ==> final(run)@ == old(run)@
            &&& r matches Err(RecordError::Overflow) ==> fit
            &&& r matches Ok(t) ==> is_record(
                bench,
                arith,
                old(run)@,
                rows,
                Ok(t@),
                final(run)@,
            )
        }),
{
    let rows = durations@.map_values(|row: Vec<Double>| row@);
    assert(rows == rows_of(durations@));
    let pre = old(run)@;
    let post = final(run)@;
    let n = pre.num_addresses as int;
    let asked = pre.num_samples as nat;
    let samples = Seq::new(n as nat, |a: int| rows[a].skip(1));
    assert(samples_of(rows, n as nat) =~= samples);
    lemma_all_of(samples);
    assert forall|a: int|
        #![trigger fits(rows, asked, a)]
        #![trigger is_complete(rows, a, pre.num_samples as int)]
        0 <= a < n implies fits(rows, asked, a) == is_complete(
        rows,
        a,
        pre.num_samples as int,
    ) by {}
    let (i, j) = pre.current()->0;
    if r is Ok {
        lemma_recorded(bench, arith, pre, i, j, samples, post);
    }
}

/// Each step of a run follows from the answer of the benchmark at the cell where it stands:
/// the pair is measured where it is to be measured under that answer. A run that is at a
/// pair stays there until the pair is recorded, and one that is done stays done.
pub proof fn lemma_proceed(run: &mut Sweep, symmetric: bool, r: Step)
    requires
        call_ensures(Sweep::proceed, (run, symmetric), r),
        old(run)@.well_formed(),
    ensures
        final(run)@ == (SweepView { cursor: final(run).cursor, ..old(run)@ }),
        match old(run).cursor {
            Cursor::Row(i) => if i < old(run).cores@.len() {
                r is Print && final(run).cursor == Cursor::Cell(i, 0)
            } else {
                r is Done && final(run).cursor == old(run).cursor
            },
            Cursor::Cell(i, j) => if j >= old(run).cores@.len() {
                r is Print && final(run).cursor == Cursor::Row((i + 1) as usize)
            } else if i != j && (symmetric ==> j < i) {
                r is Measure && final(run).cursor == Cursor::Pair(i, j)
            } else {
                &&& final(run).cursor == Cursor::Cell(i, (j + 1) as usize)
                &&& symmetric ==> r is Skip
                &&& !symmetric ==> r is Print
            },
            Cursor::Pair(i, j) => r is Measure && final(run).cursor == old(run).cursor,
        },
        r is Print ==> is_step(old(run)@, symmetric, r, final(run)@),
{
}

/// A step of a run is one that follows from an answer of the benchmark.
pub proof fn lemma_step_asks<B: Bench>(run: &mut Sweep, bench: &B, r: Step)
    requires
        call_ensures(Sweep::step::<B>, (run, bench), r),
        old(run)@.well_formed(),
    ensures
        exists|symmetric: bool|
            {
                &&& #[trigger] is_step(old(run)@, symmetric, r, final(run)@)
                &&& (old(run).cursor matches Cursor::Cell(_, j) && j < old(run).cores@.len())
                    ==> call_ensures(B::is_symmetric, (bench,), symmetric)
            },
{
}

/// A run has its table files and its matrix where tables were asked for, and they are made
/// of what it has found.
pub proof fn lemma_run_files<A: Arithmetic>(
    run: &Sweep,
    prefix: &str,
    bench_name: &str,
    arith: &A,
    files: Option<(CsvFile, CsvFile)>,
    matrix: Option<String>,
)
    requires
        call_ensures(Sweep::csv_files::<A>, (run, prefix, bench_name, arith), files),
        call_ensures(Sweep::matrix_csv::<A>, (run, arith), matrix),
    ensures
        files is Some <==> run.csv,
        matrix is Some <==> run.csv,
        files matches Some(f) ==> call_ensures(
            csv_files::<A>,
            (prefix, bench_name, &run.per_address_rows, &run.per_pair_summaries, arith),
            f,
        ),
        matrix matches Some(t) ==> call_ensures(
            matrix_table::<A>,
            (&run.cores, &run.legacy_matrix, arith),
            t,
        ),
{
}

} // verus!
