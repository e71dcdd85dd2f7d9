//! What holds of a whole run, from its start on.

use crate::arithmetic::{is_running_sum, Arithmetic};
use crate::bench::csv_output::{PerAddressRow, PerPairSummary};
use crate::bench::record::{
    is_answered, is_digest, is_recorded, lemma_address_rows_same, lemma_no_stats, lemma_recorded,
};
use crate::bench::samples::{all_of, lemma_running_sum_append, means};
use crate::bench::schedule::{
    is_measured, lemma_distance, lemma_schedule_complete, schedule, Cursor,
};
use crate::bench::sweep::{
    greatest_of, is_blank, is_mirrored, is_square, is_step, is_step_of, least_of, with_latency,
    Extreme, PairRecord, Step, SweepView,
};
use crate::bench::Bench;
use crate::double::{Double, ZERO_BITS};
use vstd::prelude::*;

verus! {

/// Whether `trace` is what a run of `bench` goes through, from its start on, given for
/// each pair that it measures the samples of each address.
pub open spec fn is_trace_of<B: Bench, A: Arithmetic>(
    bench: &B,
    arith: &A,
    trace: Seq<SweepView>,
    given: Seq<Seq<Seq<Double>>>,
) -> bool
    decreases trace.len(),
{
    if trace.len() == 0 {
        false
    } else if trace.len() == 1 {
        trace[0].is_at_start() && given.len() == 0
    } else {
        let front = trace.drop_last();
        match front.last().current() {
            Some((i, j)) => {
                &&& given.len() > 0
                &&& is_recorded(bench, arith, front.last(), i, j, given.last(), trace.last())
                &&& is_trace_of(bench, arith, front, given.drop_last())
            },
            None => {
                &&& exists|step: Step| #[trigger]
                    is_step_of(bench, front.last(), step, trace.last())
                &&& is_trace_of(bench, arith, front, given)
            },
        }
    }
}

/// Whether `bench` always answers `symmetric` when it is asked whether it is symmetric.
pub open spec fn always_answers<B: Bench>(bench: &B, symmetric: bool) -> bool {
    forall|answer: bool| #[trigger]
        call_ensures(B::is_symmetric, (bench,), answer) ==> answer == symmetric
}

/// The pairs of cores that were measured, in order.
pub open spec fn measured(trace: Seq<SweepView>) -> Seq<(int, int)>
    decreases trace.len(),
{
    if trace.len() <= 1 {
        Seq::empty()
    } else {
        let before = measured(trace.drop_last());
        match trace[trace.len() - 2].current() {
            Some((i, j)) => before.push((i as int, j as int)),
            None => before,
        }
    }
}

/// Whether a pair comes before the place where a cursor stands.
pub open spec fn is_before(pair: (int, int), cursor: Cursor) -> bool {
    match cursor {
        Cursor::Row(i) => pair.0 < i,
        Cursor::Cell(i, j) => pair.0 < i || pair.0 == i && pair.1 < j,
        Cursor::Pair(i, j) => pair.0 < i || pair.0 == i && pair.1 < j,
    }
}

/// Whether `pairs` are pairs of two different of `n` cores, before the place where a
/// cursor stands, and none of them twice.
pub open spec fn are_done(pairs: Seq<(int, int)>, cursor: Cursor, n: int) -> bool {
    &&& forall|k: int|
        0 <= k < pairs.len() ==> {
            let p = #[trigger] pairs[k];
            &&& 0 <= p.0 < n
            &&& 0 <= p.1 < n
            &&& p.0 != p.1
            &&& is_before(p, cursor)
        }
    &&& pairs.no_duplicates()
}

/// A step leaves the run well-formed, with the same pairs to measure, and changes
/// nothing but where it stands.
proof fn lemma_step(pre: SweepView, symmetric: bool, step: Step, post: SweepView)
    requires
        pre.well_formed(),
        is_step(pre, symmetric, step, post),
        pre.current() is None,
    ensures
        post.well_formed(),
        post.remaining(symmetric) == pre.remaining(symmetric),
        !pre.asks() ==> forall|s: bool| #[trigger] post.remaining(s) == pre.remaining(s),
        post == (SweepView { cursor: post.cursor, ..pre }),
        forall|p: (int, int)|
            0 <= p.1 < pre.ids.len() && is_before(p, pre.cursor) ==> #[trigger] is_before(
                p,
                post.cursor,
            ),
{
    match pre.cursor {
        Cursor::Cell(i, j) => {
            lemma_distance(pre.ids.len() as int, i, j);
        },
        _ => {},
    }
}

/// At every point a run is well-formed and still what was asked for. Whatever the
/// benchmark answers, no pair is measured twice, and no core with itself.
pub proof fn lemma_trace<B: Bench, A: Arithmetic>(
    bench: &B,
    arith: &A,
    trace: Seq<SweepView>,
    given: Seq<Seq<Seq<Double>>>,
)
    requires
        is_trace_of(bench, arith, trace, given),
    ensures
        trace[0].is_at_start(),
        trace.last().well_formed(),
        trace.last().ids == trace[0].ids,
        trace.last().csv == trace[0].csv,
        trace.last().num_iterations == trace[0].num_iterations,
        trace.last().num_samples == trace[0].num_samples,
        trace.last().num_addresses == trace[0].num_addresses,
        trace.last().address_ptrs == trace[0].address_ptrs,
        measured(trace).len() == given.len(),
        are_done(measured(trace), trace.last().cursor, trace[0].ids.len() as int),
    decreases trace.len(),
{
    if trace.len() > 1 {
        let front = trace.drop_last();
        let pre = front.last();
        let post = trace.last();
        let done = measured(front);
        match pre.current() {
            Some((i, j)) => {
                lemma_trace(bench, arith, front, given.drop_last());
                lemma_recorded(bench, arith, pre, i, j, given.last(), post);
                lemma_pair_record(bench, arith, pre, i, j, given.last(), post);
                let more = measured(trace);
                assert(more == done.push((i as int, j as int)));
                assert forall|k: int| 0 <= k < more.len() implies ({
                    let p = #[trigger] more[k];
                    &&& 0 <= p.0 < pre.ids.len()
                    &&& 0 <= p.1 < pre.ids.len()
                    &&& p.0 != p.1
                    &&& is_before(p, post.cursor)
                }) by {
                    if k < done.len() {
                        assert(more[k] == done[k]);
                    }
                }
                assert forall|a: int, b: int| 0 <= a < b < more.len() implies more[a]
                    != more[b] by {
                    assert(more[a] == done[a]);
                    if b < done.len() {
                        assert(more[b] == done[b]);
                    }
                }
            },
            None => {
                lemma_trace(bench, arith, front, given);
                let step = choose|step: Step| #[trigger] is_step_of(bench, pre, step, post);
                let symmetric = choose|symmetric: bool|
                    {
                        &&& #[trigger] is_step(pre, symmetric, step, post)
                        &&& pre.asks() ==> call_ensures(B::is_symmetric, (bench,), symmetric)
                    };
                lemma_step(pre, symmetric, step, post);
            },
        }
    }
}

/// Where the benchmark always gives the same answer, what a run has measured and what is
/// left make up the schedule at every point.
pub proof fn lemma_schedule_kept<B: Bench, A: Arithmetic>(
    bench: &B,
    arith: &A,
    trace: Seq<SweepView>,
    given: Seq<Seq<Seq<Double>>>,
    symmetric: bool,
)
    requires
        is_trace_of(bench, arith, trace, given),
        always_answers(bench, symmetric),
    ensures
        measured(trace) + trace.last().remaining(symmetric) == schedule(
            trace[0].ids.len() as int,
            symmetric,
        ),
    decreases trace.len(),
{
    lemma_trace(bench, arith, trace, given);
    if trace.len() == 1 {
        assert(measured(trace) + trace.last().remaining(symmetric)
            =~= trace.last().remaining(symmetric));
    } else {
        let front = trace.drop_last();
        let pre = front.last();
        let post = trace.last();
        match pre.current() {
            Some((i, j)) => {
                lemma_trace(bench, arith, front, given.drop_last());
                lemma_schedule_kept(bench, arith, front, given.drop_last(), symmetric);
                lemma_recorded(bench, arith, pre, i, j, given.last(), post);
                assert(post.remaining(symmetric) == pre.remaining(symmetric).drop_first());
                assert(measured(trace) + post.remaining(symmetric) =~= measured(front)
                    + pre.remaining(symmetric));
            },
            None => {
                lemma_trace(bench, arith, front, given);
                lemma_schedule_kept(bench, arith, front, given, symmetric);
                let step = choose|step: Step| #[trigger] is_step_of(bench, pre, step, post);
                let answer = choose|answer: bool|
                    {
                        &&& #[trigger] is_step(pre, answer, step, post)
                        &&& pre.asks() ==> call_ensures(B::is_symmetric, (bench,), answer)
                    };
                lemma_step(pre, answer, step, post);
                assert(post.remaining(symmetric) == pre.remaining(symmetric));
            },
        }
    }
}

/// When a run has come to its end, and the benchmark always gave the same answer, it has
/// measured exactly the pairs of the schedule, in order.
pub proof fn lemma_finished_run<B: Bench, A: Arithmetic>(
    bench: &B,
    arith: &A,
    trace: Seq<SweepView>,
    given: Seq<Seq<Seq<Double>>>,
    symmetric: bool,
)
    requires
        is_trace_of(bench, arith, trace, given),
        always_answers(bench, symmetric),
        trace.last().cursor == Cursor::Row(trace.last().ids.len() as usize),
    ensures
        measured(trace) == schedule(trace[0].ids.len() as int, symmetric),
{
    lemma_trace(bench, arith, trace, given);
    lemma_schedule_kept(bench, arith, trace, given, symmetric);
    assert(measured(trace) + trace.last().remaining(symmetric) =~= measured(trace));
}

/// The rows of the addresses of each pair, one pair after the other.
pub open spec fn rows_in(run: SweepView, log: Seq<PairRecord>) -> Seq<PerAddressRow>
    decreases log.len(),
{
    if log.len() == 0 {
        Seq::empty()
    } else {
        let rec = log.last();
        rows_in(run, log.drop_last()) + run.address_rows(rec.i, rec.j, rec.numas@, rec.stats@)
    }
}

/// The summaries of the pairs whose means have statistics, in order.
pub open spec fn summaries_in(run: SweepView, log: Seq<PairRecord>) -> Seq<PerPairSummary>
    decreases log.len(),
{
    if log.len() == 0 {
        Seq::empty()
    } else {
        let before = summaries_in(run, log.drop_last());
        match log.last().pair_stats {
            Some(s) => before.push(run.pair_summary(log.last(), s)),
            None => before,
        }
    }
}

/// The latencies by mean of the pairs that have one, in order.
pub open spec fn by_mean(log: Seq<PairRecord>) -> Seq<Extreme>
    decreases log.len(),
{
    if log.len() == 0 {
        Seq::empty()
    } else {
        let rec = log.last();
        let before = by_mean(log.drop_last());
        if rec.has_latency() {
            before.push(Extreme { value: rec.mean_of_means, i: rec.i, j: rec.j })
        } else {
            before
        }
    }
}

/// The latencies by median of the pairs that have one, in order.
pub open spec fn by_median(log: Seq<PairRecord>) -> Seq<Extreme>
    decreases log.len(),
{
    if log.len() == 0 {
        Seq::empty()
    } else {
        let rec = log.last();
        let before = by_median(log.drop_last());
        if rec.has_latency() {
            before.push(Extreme { value: rec.mean_of_medians, i: rec.i, j: rec.j })
        } else {
            before
        }
    }
}

/// `blank` with the latency by mean of each pair that has one, put in one after the
/// other.
pub open spec fn matrix_in(blank: Seq<Seq<Double>>, log: Seq<PairRecord>) -> Seq<Seq<Double>>
    decreases log.len(),
{
    if log.len() == 0 {
        blank
    } else {
        let rec = log.last();
        let before = matrix_in(blank, log.drop_last());
        if rec.has_latency() {
            with_latency(before, rec.i, rec.j, rec.mean_of_means, rec.symmetric)
        } else {
            before
        }
    }
}

/// All samples that were given, pair by pair and address by address.
pub open spec fn all_samples(given: Seq<Seq<Seq<Double>>>) -> Seq<Double>
    decreases given.len(),
{
    if given.len() == 0 {
        Seq::empty()
    } else {
        all_samples(given.drop_last()) + all_of(given.last())
    }
}

/// Whether what `run` has found since `start` is what the pairs of `log` amount to: the
/// extremes are the least and the greatest of all their latencies, and where tables were
/// asked for, these hold their rows, their summaries and their latencies.
pub open spec fn is_found_in(start: SweepView, run: SweepView, log: Seq<PairRecord>) -> bool {
    &&& run.min_latency_by_mean == least_of(by_mean(log))
    &&& run.max_latency_by_mean == greatest_of(by_mean(log))
    &&& run.min_latency_by_median == least_of(by_median(log))
    &&& run.max_latency_by_median == greatest_of(by_median(log))
    &&& run.csv ==> run.per_address_rows == rows_in(start, log)
    &&& run.csv ==> run.per_pair_summaries == summaries_in(start, log)
    &&& run.csv ==> run.legacy_matrix == matrix_in(start.legacy_matrix, log)
}

/// The record of a pair, and the run after it in terms of that record.
proof fn lemma_pair_record<B: Bench, A: Arithmetic>(
    bench: &B,
    arith: &A,
    pre: SweepView,
    i: usize,
    j: usize,
    samples: Seq<Seq<Double>>,
    post: SweepView,
) -> (rec: PairRecord)
    requires
        is_recorded(bench, arith, pre, i, j, samples, post),
    ensures
        is_digest(arith, pre.csv, i, j, samples, rec),
        is_answered(bench, pre.csv, rec),
        is_running_sum(arith, pre.running_sum, all_of(samples), post.running_sum),
        post.running_count == pre.running_count + all_of(samples).len(),
        post == pre.noted(rec, post.running_sum, post.running_count),
{
    let (rec, sum) = choose|rec: PairRecord, sum: Double|
        {
            &&& #[trigger] is_digest(arith, pre.csv, i, j, samples, rec)
            &&& is_answered(bench, pre.csv, rec)
            &&& #[trigger] is_running_sum(arith, pre.running_sum, all_of(samples), sum)
            &&& post == pre.noted(rec, sum, pre.running_count + all_of(samples).len())
        };
    rec
}

/// One more pair: what the run has found is in the log with the record of the pair.
proof fn lemma_found_push(
    start: SweepView,
    pre: SweepView,
    post: SweepView,
    log: Seq<PairRecord>,
    rec: PairRecord,
)
    requires
        is_found_in(start, pre, log),
        start.ids == pre.ids,
        start.address_ptrs == pre.address_ptrs,
        pre.csv && rec.pair_stats is Some ==> rec.has_latency(),
        post == pre.noted(rec, post.running_sum, post.running_count),
    ensures
        is_found_in(start, post, log.push(rec)),
{
    let more = log.push(rec);
    assert(more.drop_last() =~= log);
    if rec.has_latency() {
        assert(by_mean(more).drop_last() =~= by_mean(log));
        assert(by_median(more).drop_last() =~= by_median(log));
    }
    lemma_address_rows_same(start, pre, rec.i, rec.j, rec.numas@, rec.stats@);
}

/// What a run accounts for at every point, and so when it is finished. There is a record
/// for each pair that was measured, in order, made from what was given for it and with
/// the answers of the benchmark. The extremes are the least and the greatest over all
/// pairs that have a latency; the tables hold the rows of all addresses and the summaries
/// of all pairs that have statistics, in order; the matrix holds the latencies, put in one
/// after the other; and the running sum and count are those of all samples, from zero on.
/// Returns the records.
pub proof fn lemma_run_account<B: Bench, A: Arithmetic>(
    bench: &B,
    arith: &A,
    trace: Seq<SweepView>,
    given: Seq<Seq<Seq<Double>>>,
) -> (log: Seq<PairRecord>)
    requires
        is_trace_of(bench, arith, trace, given),
    ensures
        log.len() == given.len(),
        log.len() == measured(trace).len(),
        forall|k: int|
            0 <= k < log.len() ==> {
                let rec = #[trigger] log[k];
                &&& measured(trace)[k] == (rec.i as int, rec.j as int)
                &&& is_digest(arith, trace[0].csv, rec.i, rec.j, given[k], rec)
                &&& is_answered(bench, trace[0].csv, rec)
            },
        is_found_in(trace[0], trace.last(), log),
        is_running_sum(
            arith,
            Double { bits: ZERO_BITS },
            all_samples(given),
            trace.last().running_sum,
        ),
        trace.last().running_count == all_samples(given).len(),
    decreases trace.len(),
{
    lemma_trace(bench, arith, trace, given);
    if trace.len() == 1 {
        Seq::empty()
    } else {
        let front = trace.drop_last();
        let pre = front.last();
        let post = trace.last();
        match pre.current() {
            Some((i, j)) => {
                let before = given.drop_last();
                let samples = given.last();
                lemma_trace(bench, arith, front, before);
                let log = lemma_run_account(bench, arith, front, before);
                let rec = lemma_pair_record(bench, arith, pre, i, j, samples, post);
                if !rec.has_latency() {
                    lemma_no_stats(arith);
                    assert(means(rec.stats@) =~= Seq::empty());
                }
                lemma_found_push(trace[0], pre, post, log, rec);
                lemma_running_sum_append(
                    arith,
                    Double { bits: ZERO_BITS },
                    all_samples(before),
                    pre.running_sum,
                    all_of(samples),
                    post.running_sum,
                );
                let more = log.push(rec);
                assert forall|k: int| 0 <= k < more.len() implies ({
                    let rec = #[trigger] more[k];
                    &&& measured(trace)[k] == (rec.i as int, rec.j as int)
                    &&& is_digest(arith, trace[0].csv, rec.i, rec.j, given[k], rec)
                    &&& is_answered(bench, trace[0].csv, rec)
                }) by {
                    if k < log.len() {
                        assert(more[k] == log[k]);
                        assert(measured(trace)[k] == measured(front)[k]);
                        assert(given[k] == before[k]);
                    }
                }
                more
            },
            None => {
                lemma_trace(bench, arith, front, given);
                let log = lemma_run_account(bench, arith, front, given);
                let step = choose|step: Step| #[trigger] is_step_of(bench, pre, step, post);
                let answer = choose|answer: bool|
                    {
                        &&& #[trigger] is_step(pre, answer, step, post)
                        &&& pre.asks() ==> call_ensures(B::is_symmetric, (bench,), answer)
                    };
                lemma_step(pre, answer, step, post);
                log
            },
        }
    }
}

/// Whether a matrix of `n` rows holds the latency by mean of each pair of `log` that has
/// one, in both orders where that was answered, and no other number.
pub open spec fn is_matrix_of(matrix: Seq<Seq<Double>>, n: int, log: Seq<PairRecord>) -> bool {
    &&& forall|k: int|
        0 <= k < log.len() && (#[trigger] log[k]).has_latency()
            ==> matrix[log[k].i as int][log[k].j as int] == log[k].mean_of_means
    &&& forall|k: int|
        0 <= k < log.len() && (#[trigger] log[k]).has_latency() && log[k].symmetric
            ==> matrix[log[k].j as int][log[k].i as int] == log[k].mean_of_means
    &&& forall|p: int, q: int|
        0 <= p < n && 0 <= q < n && (forall|k: int|
            0 <= k < log.len() ==> !((#[trigger] log[k]).has_latency() && log[k].is_at(p, q)))
            ==> (#[trigger] matrix[p][q]).nan()
}

/// Whether the pairs of `log` are of `n` cores, are to be measured under the answer
/// `symmetric`, which holds for all that have a latency, and none is there twice.
pub open spec fn is_steady(log: Seq<PairRecord>, n: int, symmetric: bool) -> bool {
    &&& forall|k: int|
        0 <= k < log.len() ==> {
            let rec = #[trigger] log[k];
            &&& rec.i < n
            &&& rec.j < n
            &&& is_measured(symmetric, rec.i as int, rec.j as int)
            &&& rec.has_latency() ==> rec.symmetric == symmetric
        }
    &&& forall|a: int, b: int|
        0 <= a < b < log.len() ==> ((#[trigger] log[a]).i, log[a].j) != (
            (#[trigger] log[b]).i,
            log[b].j,
        )
}

/// Under one and the same answer no latency displaces another.
proof fn lemma_matrix_in(
    blank: Seq<Seq<Double>>,
    log: Seq<PairRecord>,
    n: int,
    symmetric: bool,
)
    requires
        is_square(blank, n),
        is_blank(blank),
        is_steady(log, n, symmetric),
    ensures
        is_square(matrix_in(blank, log), n),
        symmetric ==> is_mirrored(matrix_in(blank, log)),
        is_matrix_of(matrix_in(blank, log), n, log),
    decreases log.len(),
{
    let post = matrix_in(blank, log);
    if log.len() > 0 {
        let front = log.drop_last();
        let rec = log.last();
        assert forall|k: int| 0 <= k < front.len() implies #[trigger] front[k] == log[k] by {}
        lemma_matrix_in(blank, front, n, symmetric);
        let pre = matrix_in(blank, front);
        let i = rec.i as int;
        let j = rec.j as int;
        assert(log[log.len() - 1] == rec);
        assert(pre[i].len() == n);
        assert(pre[j].len() == n);
        assert forall|p: int| 0 <= p < n implies (#[trigger] post[p]).len() == n by {
            assert(pre[p].len() == n);
        }
        assert forall|p: int, q: int|
            0 <= p < n && 0 <= q < n && !(rec.has_latency() && rec.is_at(
                p,
                q,
            )) implies #[trigger] post[p][q] == pre[p][q] by {
            assert(pre[p].len() == n);
        }
        assert forall|k: int| 0 <= k < log.len() && (#[trigger] log[k]).has_latency() implies ({
            &&& post[log[k].i as int][log[k].j as int] == log[k].mean_of_means
            &&& log[k].symmetric ==> post[log[k].j as int][log[k].i as int]
                == log[k].mean_of_means
        }) by {
            if k < front.len() {
                assert(front[k] == log[k]);
                assert((log[k].i, log[k].j) != (log[log.len() - 1].i, log[log.len() - 1].j));
                if rec.has_latency() {
                    assert(!rec.is_at(log[k].i as int, log[k].j as int));
                    if log[k].symmetric {
                        assert(!rec.is_at(log[k].j as int, log[k].i as int));
                    }
                }
            }
        }
        assert forall|p: int, q: int|
            0 <= p < n && 0 <= q < n && (forall|k: int|
                0 <= k < log.len() ==> !((#[trigger] log[k]).has_latency() && log[k].is_at(
                    p,
                    q,
                ))) implies (#[trigger] post[p][q]).nan() by {
            assert forall|k: int| 0 <= k < front.len() implies !((#[trigger] front[k]).has_latency()
                && front[k].is_at(p, q)) by {
                assert(front[k] == log[k]);
            }
            assert(pre[p][q].nan());
        }
        if symmetric {
            assert forall|p: int, q: int| 0 <= p < n && 0 <= q < n implies #[trigger] post[p][q]
                == post[q][p] by {
                assert(pre[p].len() == n);
                assert(pre[q].len() == n);
                assert(pre[p][q] == pre[q][p]);
            }
        }
    } else {
        assert forall|p: int, q: int| 0 <= p < n && 0 <= q < n implies (
        #[trigger] post[p][q]).nan() by {}
    }
}

/// Where the benchmark always gives the same answer, the matrix holds the latency by mean
/// of each pair that has one, in both orders where the answer is that it is symmetric,
/// and no other number; and then it is the same with rows and columns exchanged.
pub proof fn lemma_run_matrix<B: Bench, A: Arithmetic>(
    bench: &B,
    arith: &A,
    trace: Seq<SweepView>,
    given: Seq<Seq<Seq<Double>>>,
    symmetric: bool,
    log: Seq<PairRecord>,
)
    requires
        is_trace_of(bench, arith, trace, given),
        always_answers(bench, symmetric),
        trace[0].csv,
        log.len() == measured(trace).len(),
        forall|k: int|
            0 <= k < log.len() ==> {
                let rec = #[trigger] log[k];
                &&& measured(trace)[k] == (rec.i as int, rec.j as int)
                &&& is_answered(bench, trace[0].csv, rec)
            },
        is_found_in(trace[0], trace.last(), log),
    ensures
        is_matrix_of(trace.last().legacy_matrix, trace[0].ids.len() as int, log),
        forall|k: int|
            0 <= k < log.len() && (#[trigger] log[k]).has_latency() ==> log[k].symmetric
                == symmetric,
        symmetric ==> is_mirrored(trace.last().legacy_matrix),
{
    let n = trace[0].ids.len() as int;
    lemma_trace(bench, arith, trace, given);
    lemma_schedule_kept(bench, arith, trace, given, symmetric);
    lemma_schedule_complete(n, symmetric);
    let all = schedule(n, symmetric);
    assert forall|k: int| 0 <= k < log.len() implies ({
        let rec = #[trigger] log[k];
        &&& rec.i < n
        &&& rec.j < n
        &&& is_measured(symmetric, rec.i as int, rec.j as int)
        &&& rec.has_latency() ==> rec.symmetric == symmetric
    }) by {
        let rec = log[k];
        assert((measured(trace) + trace.last().remaining(symmetric))[k] == measured(trace)[k]);
        assert(all[k] == (rec.i as int, rec.j as int));
        assert(all.contains((rec.i as int, rec.j as int)));
    }
    assert forall|a: int, b: int| 0 <= a < b < log.len() implies ((#[trigger] log[a]).i, log[a].j)
        != ((#[trigger] log[b]).i, log[b].j) by {
        assert(measured(trace)[a] != measured(trace)[b]);
    }
    lemma_matrix_in(trace[0].legacy_matrix, log, n, symmetric);
}

} // verus!
