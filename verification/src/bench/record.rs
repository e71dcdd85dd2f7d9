//! What a run makes of the samples of one pair of cores.

use crate::arithmetic::{
    is_averaged, is_count, is_fixed, is_mean, is_over, is_plain_mean, is_running_sum,
    is_square_root, is_std_dev, plain_mean, Arithmetic,
};
use crate::bench::csv_output::{rows_of, PerAddressRow, PerPairSummary};
use crate::bench::samples::{
    address_stats, all_of, are_address_stats, average, fits, is_average, means, medians, samples_of,
    total_sum,
};
use crate::bench::schedule::{lemma_distance, pairs_from, Cursor};
use crate::bench::stats::{are_stats, is_computed, Stats};
use crate::bench::sweep::{
    is_square, lowered, raised, with_latency, Extreme, PairRecord, Sweep, SweepView,
};
use crate::bench::{Bench, Count};
use crate::cores::CoreId;
use crate::double::{Double, NINETY_NINE_BITS};
use crate::style::{bold_white, dimmed_white, paint_bold_white, paint_dimmed_white};
use crate::text::{append_left_aligned, append_right_aligned, left_aligned, right_aligned};
use vstd::prelude::*;
use vstd::string::*;

verus! {

/// What is wrong with what was measured.
#[derive(Clone, Copy, PartialEq, Eq, Structural, Debug)]
pub enum RecordError {
    /// The first address whose durations are not there, lack the one that warms up,
    /// or hold more samples than were asked for.
    Shape { address: usize },
    /// There are more samples than can be counted.
    Overflow,
}

/// Whether `rec` is what `samples` of the pair of the cores `i` and `j` amount to. The
/// statistics of the means are there only where tables were asked for.
pub open spec fn is_digest<A: Arithmetic>(
    arith: &A,
    csv: bool,
    i: usize,
    j: usize,
    samples: Seq<Seq<Double>>,
    rec: PairRecord,
) -> bool {
    let stats = rec.stats@;
    &&& rec.i == i
    &&& rec.j == j
    &&& are_address_stats(arith, samples, stats)
    &&& rec.has_latency() ==> is_plain_mean(arith, means(stats), rec.mean_of_means)
    &&& rec.has_latency() ==> is_plain_mean(arith, medians(stats), rec.mean_of_medians)
    &&& csv ==> are_stats(arith, means(stats), rec.pair_stats)
    &&& rec.has_latency() ==> is_averaged(arith, means(stats), rec.mean_of_means)
    &&& rec.has_latency() ==> is_averaged(arith, medians(stats), rec.mean_of_medians)
    &&& csv && rec.has_latency() ==> is_computed(arith, means(stats), rec.pair_stats)
}

/// Whether the answers in `rec` are those of `bench`, as far as it is asked. It is asked
/// only for the tables: for the NUMA node of the memory once for each address that has
/// statistics and once for the pair where its means have statistics, and whether it is
/// symmetric where the pair has a latency.
pub open spec fn is_answered<B: Bench>(bench: &B, csv: bool, rec: PairRecord) -> bool {
    &&& rec.numas@.len() == rec.stats@.len()
    &&& csv ==> forall|k: int|
        0 <= k < rec.stats@.len() && rec.stats@[k] is Some ==> call_ensures(
            B::mem_numa,
            (bench,),
            #[trigger] rec.numas@[k],
        )
    &&& csv && rec.has_latency() ==> call_ensures(B::is_symmetric, (bench,), rec.symmetric)
    &&& csv && rec.pair_stats is Some ==> call_ensures(B::mem_numa, (bench,), rec.pair_numa)
}

/// Whether `post` is the run `pre` after `samples` of the pair of the cores `i` and `j`,
/// with the answers of `bench`.
pub open spec fn is_recorded<B: Bench, A: Arithmetic>(
    bench: &B,
    arith: &A,
    pre: SweepView,
    i: usize,
    j: usize,
    samples: Seq<Seq<Double>>,
    post: SweepView,
) -> bool {
    exists|rec: PairRecord, sum: Double|
        {
            &&& #[trigger] is_digest(arith, pre.csv, i, j, samples, rec)
            &&& is_answered(bench, pre.csv, rec)
            &&& #[trigger] is_running_sum(arith, pre.running_sum, all_of(samples), sum)
            &&& post == pre.noted(rec, sum, pre.running_count + all_of(samples).len())
        }
}

/// Whether `text` shows the average samples `avg` of a pair: the mean, and the
/// standard deviation, which counts as 99 at most, over the square root of the
/// number of samples.
pub open spec fn is_cell_text<A: Arithmetic>(
    arith: &A,
    avg: Seq<Double>,
    num_samples: int,
    text: Seq<char>,
) -> bool {
    exists|mean: Double, dev: Double, n: Double, root: Double, err: Double, m: Seq<char>, e: Seq<
        char,
    >|
        {
            &&& #[trigger] is_mean(arith, avg, mean)
            &&& #[trigger] is_std_dev(arith, avg, dev)
            &&& #[trigger] is_count(arith, num_samples, n)
            &&& #[trigger] is_square_root(arith, n, root)
            &&& #[trigger] is_over(
                arith,
                dev.lesser(Double { bits: NINETY_NINE_BITS }),
                root,
                err,
            )
            &&& #[trigger] is_fixed(arith, mean, 0, m)
            &&& #[trigger] is_fixed(arith, err, 0, e)
            &&& text == " "@ + bold_white(right_aligned(m, 4)) + dimmed_white(
                "+-"@ + left_aligned(e, 2),
            )
        }
}

/// `lowered`, computed.
fn lower(so_far: Option<Extreme>, value: Double, i: usize, j: usize) -> (r: Option<Extreme>)
    ensures
        r == lowered(so_far, value, i, j),
{
    match so_far {
        Some(e) => if value.is_below(e.value) {
            Some(Extreme { value, i, j })
        } else {
            so_far
        },
        None => Some(Extreme { value, i, j }),
    }
}

/// `raised`, computed.
fn raise(so_far: Option<Extreme>, value: Double, i: usize, j: usize) -> (r: Option<Extreme>)
    ensures
        r == raised(so_far, value, i, j),
{
    match so_far {
        Some(e) => if e.value.is_below(value) {
            Some(Extreme { value, i, j })
        } else {
            so_far
        },
        None => Some(Extreme { value, i, j }),
    }
}

/// How many samples there are of the first `n` addresses, or the first address whose
/// durations do not fit.
fn count_samples(durations: &Vec<Vec<Double>>, n: usize, num_samples: Count) -> (r: Result<
    u128,
    usize,
>)
    ensures
        match r {
            Ok(total) => {
                &&& forall|k: int|
                    0 <= k < n ==> #[trigger] fits(rows_of(durations@), num_samples as nat, k)
                &&& total == all_of(samples_of(rows_of(durations@), n as nat)).len()
            },
            Err(address) => {
                &&& address < n
                &&& !fits(rows_of(durations@), num_samples as nat, address as int)
                &&& forall|k: int|
                    0 <= k < address ==> #[trigger] fits(rows_of(durations@), num_samples as nat, k)
            },
        },
{
    let ghost rows = rows_of(durations@);
    let ghost samples = samples_of(rows, n as nat);
    let mut total: u128 = 0;
    let mut k: usize = 0;
    assert(all_of(samples.take(0)) =~= Seq::empty());
    while k < n
        invariant
            k <= n,
            rows == rows_of(durations@),
            samples == samples_of(rows, n as nat),
            forall|m: int| 0 <= m < k ==> #[trigger] fits(rows, num_samples as nat, m),
            total == all_of(samples.take(k as int)).len(),
            total <= k * 0xffff_ffff,
        decreases n - k,
    {
        if k >= durations.len() || durations[k].len() == 0 || durations[k].len() - 1
            > num_samples as usize {
            return Err(k);
        }
        proof {
            assert(samples.take(k + 1).drop_last() =~= samples.take(k as int));
            assert(samples[k as int].len() == durations[k as int].len() - 1);
        }
        total = total + (durations[k].len() - 1) as u128;
        k = k + 1;
    }
    assert(samples.take(n as int) =~= samples);
    Ok(total)
}

/// The means of the addresses that have statistics.
fn collect_means(stats: &Vec<Option<Stats>>) -> (r: Vec<Double>)
    ensures
        r@ == means(stats@),
{
    let mut r: Vec<Double> = Vec::new();
    let mut k: usize = 0;
    while k < stats.len()
        invariant
            k <= stats.len(),
            r@ == means(stats@.take(k as int)),
        decreases stats.len() - k,
    {
        assert(stats@.take(k + 1).drop_last() =~= stats@.take(k as int));
        match stats[k] {
            Some(s) => {
                r.push(s.mean);
            },
            None => {},
        }
        k = k + 1;
    }
    assert(stats@.take(stats.len() as int) =~= stats@);
    r
}

/// The medians of the addresses that have statistics.
fn collect_medians(stats: &Vec<Option<Stats>>) -> (r: Vec<Double>)
    ensures
        r@ == medians(stats@),
{
    let mut r: Vec<Double> = Vec::new();
    let mut k: usize = 0;
    while k < stats.len()
        invariant
            k <= stats.len(),
            r@ == medians(stats@.take(k as int)),
        decreases stats.len() - k,
    {
        assert(stats@.take(k + 1).drop_last() =~= stats@.take(k as int));
        match stats[k] {
            Some(s) => {
                r.push(s.median);
            },
            None => {},
        }
        k = k + 1;
    }
    assert(stats@.take(stats.len() as int) =~= stats@);
    r
}

/// An empty sample has no statistics.
pub proof fn lemma_no_stats<A: Arithmetic>(arith: &A)
    ensures
        are_stats(arith, Seq::empty(), None),
{
    reveal(Seq::filter);
}

/// There are as many means as medians.
proof fn lemma_means_medians(stats: Seq<Option<Stats>>)
    ensures
        means(stats).len() == medians(stats).len(),
    decreases stats.len(),
{
    if stats.len() > 0 {
        lemma_means_medians(stats.drop_last());
    }
}

/// Shows the average samples of a pair.
fn cell_text<A: Arithmetic>(avg: &Vec<Double>, num_samples: Count, arith: &A) -> (r: String)
    requires
        avg.len() > 0,
    ensures
        is_cell_text(arith, avg@, num_samples as int, r@),
{
    let mean = arith.mean(avg.as_slice());
    let m = arith.fixed(mean, 0);
    let dev = arith.std_dev(avg.as_slice());
    let n = arith.from_count(num_samples as u128);
    let root = arith.square_root(n);
    let err = arith.over(dev.at_most(Double { bits: NINETY_NINE_BITS }), root);
    let e = arith.fixed(err, 0);
    let mut bold = String::new();
    append_right_aligned(&mut bold, m.as_str(), 4);
    assert(bold@ =~= right_aligned(m@, 4));
    let mut dim = String::from_str("+-");
    append_left_aligned(&mut dim, e.as_str(), 2);
    let mut r = String::from_str(" ");
    r.append(paint_bold_white(bold.as_str()).as_str());
    r.append(paint_dimmed_white(dim.as_str()).as_str());
    proof {
        assert(is_mean(arith, avg@, mean));
        assert(is_std_dev(arith, avg@, dev));
        assert(is_count(arith, num_samples as int, n));
        assert(is_square_root(arith, n, root));
        assert(is_over(arith, dev.lesser(Double { bits: NINETY_NINE_BITS }), root, err));
        assert(call_ensures(A::fixed, (arith, mean, 0usize), m));
        assert(is_fixed(arith, mean, 0, m@));
        assert(call_ensures(A::fixed, (arith, err, 0usize), e));
        assert(is_fixed(arith, err, 0, e@));
    }
    r
}

/// Asks `bench` for the NUMA node of the memory, once for each address that has
/// statistics where tables were asked for.
fn ask_numas<B: Bench>(bench: &B, csv: bool, stats: &Vec<Option<Stats>>) -> (r: Vec<usize>)
    ensures
        r@.len() == stats@.len(),
        csv ==> forall|k: int|
            0 <= k < stats@.len() && stats@[k] is Some ==> call_ensures(
                B::mem_numa,
                (bench,),
                #[trigger] r@[k],
            ),
{
    let mut r: Vec<usize> = Vec::new();
    while r.len() < stats.len()
        invariant
            r.len() <= stats.len(),
            csv ==> forall|k: int|
                0 <= k < r@.len() && stats@[k] is Some ==> call_ensures(
                    B::mem_numa,
                    (bench,),
                    #[trigger] r@[k],
                ),
        decreases stats.len() - r.len(),
    {
        let numa: usize = if csv && stats[r.len()].is_some() {
            bench.mem_numa()
        } else {
            0
        };
        r.push(numa);
    }
    r
}

/// What the statistics of the addresses of a pair amount to, with the answers of
/// `bench`.
fn digest<B: Bench, A: Arithmetic>(
    i: usize,
    j: usize,
    stats: Vec<Option<Stats>>,
    csv: bool,
    bench: &B,
    arith: &A,
) -> (r: PairRecord)
    ensures
        forall|samples: Seq<Seq<Double>>|
            are_address_stats(arith, samples, stats@) ==> #[trigger] is_digest(
                arith,
                csv,
                i,
                j,
                samples,
                r,
            ),
        is_answered(bench, csv, r),
        r.stats == stats,
{
    let numas = ask_numas(bench, csv, &stats);
    let pair_means = collect_means(&stats);
    let pair_medians = collect_medians(&stats);
    proof {
        lemma_means_medians(stats@);
    }
    let mut r = PairRecord {
        i,
        j,
        stats,
        numas,
        mean_of_means: Double::zero(),
        mean_of_medians: Double::zero(),
        pair_stats: None,
        symmetric: false,
        pair_numa: 0,
    };
    if pair_means.len() == 0 || pair_medians.len() == 0 {
        proof {
            lemma_no_stats(arith);
        }
        return r;
    }
    let all_means = pair_means.as_slice();
    let all_medians = pair_medians.as_slice();
    r.mean_of_means = plain_mean(arith, all_means);
    r.mean_of_medians = plain_mean(arith, all_medians);
    proof {
        assert(call_ensures(plain_mean::<A>, (arith, all_means), r.mean_of_means));
        assert(call_ensures(plain_mean::<A>, (arith, all_medians), r.mean_of_medians));
    }
    if csv {
        r.symmetric = bench.is_symmetric();
        r.pair_stats = Stats::compute(all_means, arith);
        assert(call_ensures(Stats::compute::<A>, (all_means, arith), r.pair_stats));
        if r.pair_stats.is_some() {
            r.pair_numa = bench.mem_numa();
        }
    }
    r
}

impl Sweep {
    /// Appends the rows of the addresses that have statistics.
    fn append_address_rows(&mut self, rec: &PairRecord)
        requires
            rec.i < old(self).cores.len(),
            rec.j < old(self).cores.len(),
            rec.numas@.len() == rec.stats@.len(),
        ensures
            final(self)@ == (SweepView {
                per_address_rows: old(self)@.per_address_rows + old(self)@.address_rows(
                    rec.i,
                    rec.j,
                    rec.numas@,
                    rec.stats@,
                ),
                ..old(self)@
            }),
            final(self).cores == old(self).cores,
    {
        let ghost pre = self@;
        let ghost stats = rec.stats@;
        let mut k: usize = 0;
        assert(pre.per_address_rows + pre.address_rows(rec.i, rec.j, rec.numas@, stats.take(0))
            =~= pre.per_address_rows);
        while k < rec.stats.len()
            invariant
                k <= rec.stats.len(),
                stats == rec.stats@,
                rec.numas@.len() == stats.len(),
                rec.i < self.cores.len(),
                rec.j < self.cores.len(),
                pre == old(self)@,
                self.cores == old(self).cores,
                self@ == (SweepView {
                    per_address_rows: pre.per_address_rows + pre.address_rows(
                        rec.i,
                        rec.j,
                        rec.numas@,
                        stats.take(k as int),
                    ),
                    ..pre
                }),
            decreases rec.stats.len() - k,
        {
            let ghost shorter = stats.take(k as int);
            assert(stats.take(k + 1).drop_last() =~= shorter);
            let ghost rows = self@.per_address_rows;
            match rec.stats[k] {
                Some(s) => {
                    let vaddr: usize = if k < self.address_ptrs.len() {
                        self.address_ptrs[k]
                    } else {
                        0
                    };
                    let row = PerAddressRow {
                        ping_core: self.cores[rec.i].id,
                        pong_core: self.cores[rec.j].id,
                        ping_numa: 0,
                        pong_numa: 0,
                        mem_numa: rec.numas[k],
                        address: k,
                        vaddr,
                        mean: s.mean,
                        median: s.median,
                        min: s.min,
                        max: s.max,
                        cv_percent: s.cv_percent,
                    };
                    self.per_address_rows.push(row);
                    proof {
                        assert(row == pre.address_row(
                            rec.i,
                            rec.j,
                            rec.numas@[k as int],
                            k as int,
                            s,
                        ));
                        assert(rows.push(row) =~= pre.per_address_rows + pre.address_rows(
                            rec.i,
                            rec.j,
                            rec.numas@,
                            shorter,
                        ).push(row));
                        assert(self@ =~= (SweepView {
                            per_address_rows: pre.per_address_rows + pre.address_rows(
                                rec.i,
                                rec.j,
                                rec.numas@,
                                stats.take(k + 1),
                            ),
                            ..pre
                        }));
                    }
                },
                None => {},
            }
            k = k + 1;
        }
        assert(stats.take(rec.stats.len() as int) =~= stats);
    }

    /// Puts a latency into the matrix, in both orders where that is asked for.
    fn set_matrix(&mut self, i: usize, j: usize, latency: Double, symmetric: bool)
        requires
            i < old(self).cores.len(),
            j < old(self).cores.len(),
            is_square(old(self)@.legacy_matrix, old(self).cores.len() as int),
        ensures
            final(self)@ == (SweepView {
                legacy_matrix: with_latency(old(self)@.legacy_matrix, i, j, latency, symmetric),
                ..old(self)@
            }),
            final(self).cores == old(self).cores,
    {
        let ghost pre = self@;
        proof {
            assert(pre.legacy_matrix[i as int].len() == self.cores.len());
            assert(pre.legacy_matrix[j as int].len() == self.cores.len());
        }
        self.legacy_matrix[i][j] = latency;
        proof {
            let m = pre.legacy_matrix.update(
                i as int,
                pre.legacy_matrix[i as int].update(j as int, latency),
            );
            assert(rows_of(self.legacy_matrix@) =~= m);
        }
        if symmetric {
            self.legacy_matrix[j][i] = latency;
        }
        assert(rows_of(self.legacy_matrix@) =~= with_latency(
            pre.legacy_matrix,
            i,
            j,
            latency,
            symmetric,
        ));
    }

    /// Notes the latency of a pair.
    fn summarise(&mut self, rec: &PairRecord)
        requires
            rec.i < old(self).cores.len(),
            rec.j < old(self).cores.len(),
            old(self).csv ==> is_square(
                old(self)@.legacy_matrix,
                old(self).cores.len() as int,
            ),
        ensures
            final(self)@ == old(self)@.summarised(*rec),
            final(self).cores == old(self).cores,
    {
        let ghost pre = self@;
        let (i, j) = (rec.i, rec.j);
        self.min_latency_by_mean = lower(self.min_latency_by_mean, rec.mean_of_means, i, j);
        self.max_latency_by_mean = raise(self.max_latency_by_mean, rec.mean_of_means, i, j);
        self.min_latency_by_median = lower(self.min_latency_by_median, rec.mean_of_medians, i, j);
        self.max_latency_by_median = raise(self.max_latency_by_median, rec.mean_of_medians, i, j);
        if self.csv {
            self.set_matrix(i, j, rec.mean_of_means, rec.symmetric);
            match rec.pair_stats {
                Some(s) => {
                    self.per_pair_summaries.push(
                        PerPairSummary {
                            ping_core: self.cores[i].id,
                            pong_core: self.cores[j].id,
                            ping_numa: 0,
                            pong_numa: 0,
                            mem_numa: rec.pair_numa,
                            mean_of_means: rec.mean_of_means,
                            mean_of_medians: rec.mean_of_medians,
                            min: s.min,
                            max: s.max,
                            cv_percent: s.cv_percent,
                        },
                    );
                },
                None => {},
            }
        }
        assert(self@ =~= pre.summarised(*rec));
    }

    /// Notes what a pair amounts to, with the new totals `sum` and `count`.
    pub fn note(&mut self, rec: &PairRecord, sum: Double, count: u64)
        requires
            rec.i < old(self).cores.len(),
            rec.j < old(self).cores.len(),
            rec.numas@.len() == rec.stats@.len(),
            old(self).csv ==> is_square(
                old(self)@.legacy_matrix,
                old(self).cores.len() as int,
            ),
        ensures
            final(self)@ == old(self)@.noted(*rec, sum, count as int),
    {
        let ghost pre = self@;
        self.running_sum = sum;
        self.running_count = count;
        self.cursor = Cursor::Cell(rec.i, rec.j + 1);
        let ghost moved = self@;
        if self.csv {
            self.append_address_rows(rec);
        }
        proof {
            lemma_address_rows_same(pre, moved, rec.i, rec.j, rec.numas@, rec.stats@);
        }
        if collect_means(&rec.stats).len() > 0 {
            self.summarise(rec);
        }
    }
}

/// A recorded pair leaves the run well-formed, one pair nearer to its end; its
/// tables keep what they hold, and its count has grown by the number of samples.
pub proof fn lemma_recorded<B: Bench, A: Arithmetic>(
    bench: &B,
    arith: &A,
    pre: SweepView,
    i: usize,
    j: usize,
    samples: Seq<Seq<Double>>,
    post: SweepView,
)
    requires
        pre.well_formed(),
        pre.current() == Some((i, j)),
        is_recorded(bench, arith, pre, i, j, samples, post),
    ensures
        post.well_formed(),
        post.cursor == Cursor::Cell(i, (j + 1) as usize),
        forall|symmetric: bool|
            {
                &&& pre.remaining(symmetric).len() > 0
                &&& pre.remaining(symmetric)[0] == (i as int, j as int)
                &&& #[trigger] post.remaining(symmetric) == pre.remaining(symmetric).drop_first()
            },
        0 <= post.distance() < pre.distance(),
        post.ids == pre.ids,
        pre.per_address_rows.is_prefix_of(post.per_address_rows),
        pre.per_pair_summaries.is_prefix_of(post.per_pair_summaries),
        post.per_pair_summaries.len() <= pre.per_pair_summaries.len() + 1,
        post.running_count == pre.running_count + all_of(samples).len(),
{
    let (rec, sum) = choose|rec: PairRecord, sum: Double|
        {
            &&& #[trigger] is_digest(arith, pre.csv, i, j, samples, rec)
            &&& is_answered(bench, pre.csv, rec)
            &&& #[trigger] is_running_sum(arith, pre.running_sum, all_of(samples), sum)
            &&& post == pre.noted(rec, sum, pre.running_count + all_of(samples).len())
        };
    let n = pre.ids.len() as int;
    if rec.has_latency() && pre.csv {
        let m = pre.legacy_matrix;
        assert(m[i as int].len() == n);
        assert(m[j as int].len() == n);
        assert forall|p: int| 0 <= p < n implies (#[trigger] post.legacy_matrix[p]).len() == n by {
            assert(m[p].len() == n);
        }
        assert forall|p: int| 0 <= p < n implies (#[trigger] post.legacy_matrix[p])[p].nan() by {
            assert(m[p].len() == n);
            assert(m[p][p].nan());
        }
    }
    lemma_distance(n, i, j);
    lemma_distance(n, i, (j + 1) as usize);
    assert forall|symmetric: bool|
        {
            &&& pre.remaining(symmetric).len() > 0
            &&& pre.remaining(symmetric)[0] == (i as int, j as int)
            &&& #[trigger] post.remaining(symmetric) == pre.remaining(symmetric).drop_first()
        } by {
        let rest = pairs_from(n, symmetric, i as int, j + 1);
        assert((seq![(i as int, j as int)] + rest).drop_first() =~= rest);
    }
}

/// Whether what was measured for a pair is recorded, with the answers of `bench`: `r` is
/// the text that shows it, or what is wrong with it, in which case the run stays as it
/// is.
pub open spec fn is_record<B: Bench, A: Arithmetic>(
    bench: &B,
    arith: &A,
    pre: SweepView,
    durations: Seq<Seq<Double>>,
    r: Result<Seq<char>, RecordError>,
    post: SweepView,
) -> bool {
    let (i, j) = pre.current()->0;
    let samples = samples_of(durations, pre.num_addresses as nat);
    let all_fit = forall|k: int|
        0 <= k < pre.num_addresses ==> #[trigger] fits(durations, pre.num_samples as nat, k);
    match r {
        Ok(text) => {
            &&& all_fit
            &&& pre.running_count + all_of(samples).len() <= u64::MAX
            &&& is_recorded(bench, arith, pre, i, j, samples, post)
            &&& exists|avg: Seq<Double>| #[trigger]
                is_average(arith, samples, pre.num_samples as nat, avg) && is_cell_text(
                    arith,
                    avg,
                    pre.num_samples as int,
                    text,
                )
        },
        Err(RecordError::Shape { address }) => {
            &&& post == pre
            &&& address < pre.num_addresses
            &&& !fits(durations, pre.num_samples as nat, address as int)
            &&& forall|k: int|
                0 <= k < address ==> #[trigger] fits(durations, pre.num_samples as nat, k)
        },
        Err(RecordError::Overflow) => {
            &&& post == pre
            &&& all_fit
            &&& pre.running_count + all_of(samples).len() > u64::MAX
        },
    }
}

/// Whether `durations` is what a run of `bench` on two cores measures.
pub open spec fn is_run_of<B: Bench>(
    bench: &B,
    cores: (CoreId, CoreId),
    num_iterations: Count,
    num_samples: int,
    durations: Vec<Vec<Double>>,
) -> bool {
    call_ensures(B::run, (bench, cores, num_iterations, num_samples as Count), durations)
}

/// The text of a result.
pub open spec fn text_of(r: Result<String, RecordError>) -> Result<Seq<char>, RecordError> {
    match r {
        Ok(s) => Ok(s@),
        Err(e) => Err(e),
    }
}

impl Sweep {
    /// The two cores that are to be measured now.
    pub open spec fn current_cores(self) -> (CoreId, CoreId) {
        let (i, j) = self@.current()->0;
        (self.cores[i as int], self.cores[j as int])
    }

    /// Records what was measured for the current pair: `durations`, in nanoseconds,
    /// for each address. Returns the text that shows it.
    pub fn record<B: Bench, A: Arithmetic>(
        &mut self,
        durations: &Vec<Vec<Double>>,
        bench: &B,
        arith: &A,
    ) -> (r: Result<String, RecordError>)
        requires
            old(self)@.well_formed(),
            old(self)@.current() is Some,
        ensures
            is_record(
                bench,
                arith,
                old(self)@,
                rows_of(durations@),
                text_of(r),
                final(self)@,
            ),
            final(self)@.well_formed(),
            r is Ok ==> forall|symmetric: bool| #[trigger]
                final(self)@.remaining(symmetric) == old(self)@.remaining(
                    symmetric,
                ).drop_first(),
            r is Ok ==> 0 <= final(self)@.distance() < old(self)@.distance(),
    {
        let ghost pre = self@;
        let ghost rows = rows_of(durations@);
        let n: usize = self.num_addresses;
        let (i, j) = self.pair();
        let total: u128 = match count_samples(durations, n, self.num_samples) {
            Ok(total) => total,
            Err(address) => {
                return Err(RecordError::Shape { address });
            },
        };
        if total > (u64::MAX - self.running_count) as u128 {
            return Err(RecordError::Overflow);
        }
        let ghost samples = samples_of(rows, n as nat);
        proof {
            if n > 0 {
                assert(fits(rows, pre.num_samples as nat, n - 1));
            }
            assert forall|k: int| 0 <= k < n implies 1 <= (#[trigger] durations[k]).len()
                <= pre.num_samples + 1 by {
                assert(fits(rows, pre.num_samples as nat, k));
            }
        }
        let stats = address_stats(durations, n, arith);
        let sum = total_sum(durations, n, self.running_sum, arith);
        let avg = average(durations, n, self.num_samples, arith);
        let text = cell_text(&avg, self.num_samples, arith);
        let rec = digest(i, j, stats, self.csv, bench, arith);
        assert(is_digest(arith, pre.csv, i, j, samples, rec));
        self.note(&rec, sum, self.running_count + total as u64);
        proof {
            assert(is_running_sum(arith, pre.running_sum, all_of(samples), sum));
            assert(is_recorded(bench, arith, pre, i, j, samples, self@));
            lemma_recorded(bench, arith, pre, i, j, samples, self@);
            assert(is_average(arith, samples, pre.num_samples as nat, avg@));
        }
        Ok(text)
    }

    /// The places of the two cores that are to be measured now.
    fn pair(&self) -> (r: (usize, usize))
        requires
            self@.current() is Some,
        ensures
            self@.current() == Some(r),
    {
        match self.cursor {
            Cursor::Pair(i, j) => (i, j),
            Cursor::Cell(i, j) => (i, j),
            Cursor::Row(i) => (i, 0),
        }
    }

    /// Measures the current pair with `bench`, with one sample more than was asked
    /// for to warm up, and records it.
    pub fn measure<B: Bench, A: Arithmetic>(&mut self, bench: &B, arith: &A) -> (r: Result<
        String,
        RecordError,
    >)
        requires
            old(self)@.well_formed(),
            old(self)@.current() is Some,
        ensures
            exists|durations: Vec<Vec<Double>>|
                {
                    &&& #[trigger] is_run_of(
                        bench,
                        old(self).current_cores(),
                        old(self).num_iterations,
                        1 + old(self).num_samples,
                        durations,
                    )
                    &&& is_record(
                        bench,
                        arith,
                        old(self)@,
                        rows_of(durations@),
                        text_of(r),
                        final(self)@,
                    )
                },
            final(self)@.well_formed(),
            r is Ok ==> forall|symmetric: bool| #[trigger]
                final(self)@.remaining(symmetric) == old(self)@.remaining(
                    symmetric,
                ).drop_first(),
            r is Ok ==> 0 <= final(self)@.distance() < old(self)@.distance(),
    {
        let (i, j) = self.pair();
        let durations = bench.run(
            (self.cores[i], self.cores[j]),
            self.num_iterations,
            1 + self.num_samples,
        );
        assert(is_run_of(
            bench,
            old(self).current_cores(),
            old(self).num_iterations,
            1 + old(self).num_samples,
            durations,
        ));
        self.record(&durations, bench, arith)
    }
}

/// Whether two measurements have the same shape and differ at most in the durations
/// that warm up: the first of each address.
pub open spec fn differ_in_warmup(a: Seq<Seq<Double>>, b: Seq<Seq<Double>>) -> bool {
    &&& a.len() == b.len()
    &&& forall|k: int| 0 <= k < a.len() ==> (#[trigger] a[k]).len() == b[k].len()
    &&& forall|k: int, s: int|
        0 <= k < a.len() && 1 <= s < a[k].len() ==> #[trigger] a[k][s] == b[k][s]
}

/// What warms up counts for nothing: measurements that differ only in it are recorded
/// in the same way, with the same text or error and the same run after it.
pub proof fn lemma_warmup_ignored<B: Bench, A: Arithmetic>(
    bench: &B,
    arith: &A,
    pre: SweepView,
    durations: Seq<Seq<Double>>,
    durations2: Seq<Seq<Double>>,
    r: Result<Seq<char>, RecordError>,
    post: SweepView,
)
    requires
        differ_in_warmup(durations, durations2),
    ensures
        is_record(bench, arith, pre, durations, r, post) <==> is_record(
            bench,
            arith,
            pre,
            durations2,
            r,
            post,
        ),
{
    let n = pre.num_addresses as nat;
    let asked = pre.num_samples as nat;
    assert forall|k: int|
        #![trigger fits(durations, asked, k)]
        #![trigger fits(durations2, asked, k)]
        0 <= k implies fits(durations, asked, k) == fits(durations2, asked, k) by {}
    if forall|k: int| 0 <= k < n ==> #[trigger] fits(durations, asked, k) {
        assert forall|k: int| 0 <= k < n implies durations[k].skip(1) == #[trigger] durations2[k].skip(
            1,
        ) by {
            assert(fits(durations, asked, k));
            assert(durations[k].skip(1) =~= durations2[k].skip(1));
        }
        assert(samples_of(durations, n) =~= samples_of(durations2, n));
    }
}

/// The rows of the addresses depend on the cores and the virtual addresses alone.
pub proof fn lemma_address_rows_same(
    a: SweepView,
    b: SweepView,
    i: usize,
    j: usize,
    numas: Seq<usize>,
    stats: Seq<Option<Stats>>,
)
    requires
        a.ids == b.ids,
        a.address_ptrs == b.address_ptrs,
    ensures
        a.address_rows(i, j, numas, stats) == b.address_rows(i, j, numas, stats),
    decreases stats.len(),
{
    if stats.len() > 0 {
        lemma_address_rows_same(a, b, i, j, numas, stats.drop_last());
    }
}

} // verus!
