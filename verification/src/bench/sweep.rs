//! A run of a benchmark over all pairs of cores: what it holds, and its steps.

use crate::args::CliArgs;
use crate::bench::csv_output::{rows_of, PerAddressRow, PerPairSummary};
use crate::bench::samples::means;
use crate::bench::schedule::{is_measured, lemma_distance, schedule, Cursor};
use crate::bench::stats::Stats;
use crate::bench::{Bench, Count};
use crate::cores::{ids_of, CoreId};
use crate::double::{Double, NAN_BITS, ZERO_BITS};
use crate::text::{append_right_aligned, append_spaces, decimal, decimal_text, right_aligned, spaces};
use vstd::prelude::*;
use vstd::string::*;

verus! {

/// A latency that is the least or the greatest so far, and the cores it is of.
#[derive(Clone, Copy, PartialEq, Eq, Structural, Debug)]
pub struct Extreme {
    pub value: Double,
    pub i: usize,
    pub j: usize,
}

/// The least latency after `value`, of the cores `i` and `j`.
pub open spec fn lowered(
    so_far: Option<Extreme>,
    value: Double,
    i: usize,
    j: usize,
) -> Option<Extreme> {
    match so_far {
        Some(e) => if value.below(e.value) {
            Some(Extreme { value, i, j })
        } else {
            so_far
        },
        None => Some(Extreme { value, i, j }),
    }
}

/// The greatest latency after `value`, of the cores `i` and `j`.
pub open spec fn raised(
    so_far: Option<Extreme>,
    value: Double,
    i: usize,
    j: usize,
) -> Option<Extreme> {
    match so_far {
        Some(e) => if e.value.below(value) {
            Some(Extreme { value, i, j })
        } else {
            so_far
        },
        None => Some(Extreme { value, i, j }),
    }
}

/// A run of a benchmark over all pairs of `cores`: what it was asked for, where it
/// stands, and what it has found.
pub struct Sweep {
    pub cores: Vec<CoreId>,
    pub csv: bool,
    pub num_iterations: Count,
    pub num_samples: Count,
    pub num_addresses: usize,
    pub address_ptrs: Vec<usize>,
    pub cursor: Cursor,
    pub running_sum: Double,
    pub running_count: u64,
    pub min_latency_by_mean: Option<Extreme>,
    pub max_latency_by_mean: Option<Extreme>,
    pub min_latency_by_median: Option<Extreme>,
    pub max_latency_by_median: Option<Extreme>,
    pub per_address_rows: Vec<PerAddressRow>,
    pub per_pair_summaries: Vec<PerPairSummary>,
    pub legacy_matrix: Vec<Vec<Double>>,
}

/// What a pair of cores amounts to, and what the benchmark answers about it.
pub struct PairRecord {
    pub i: usize,
    pub j: usize,
    /// The statistics of each address.
    pub stats: Vec<Option<Stats>>,
    /// The NUMA node of the memory, as answered for each address.
    pub numas: Vec<usize>,
    /// The mean of the means of the addresses that have statistics.
    pub mean_of_means: Double,
    /// The mean of their medians.
    pub mean_of_medians: Double,
    /// The statistics of their means.
    pub pair_stats: Option<Stats>,
    /// Whether the latency counts for both orders of the cores.
    pub symmetric: bool,
    /// The NUMA node of the memory, as answered for the pair.
    pub pair_numa: usize,
}

impl PairRecord {
    /// Whether the pair has a latency: some address has statistics.
    pub open spec fn has_latency(self) -> bool {
        means(self.stats@).len() > 0
    }

    /// Whether the row `p` and the column `q` of the matrix are of this pair.
    pub open spec fn is_at(self, p: int, q: int) -> bool {
        ||| self.i == p && self.j == q
        ||| self.symmetric && self.j == p && self.i == q
    }
}

/// A matrix with the latency of the cores `i` and `j`, in both orders where that is
/// asked for.
pub open spec fn with_latency(
    matrix: Seq<Seq<Double>>,
    i: usize,
    j: usize,
    latency: Double,
    symmetric: bool,
) -> Seq<Seq<Double>> {
    let m = matrix.update(i as int, matrix[i as int].update(j as int, latency));
    if symmetric {
        m.update(j as int, m[j as int].update(i as int, latency))
    } else {
        m
    }
}

/// What a `Sweep` holds, in terms of sequences.
#[verifier::ext_equal]
pub struct SweepView {
    pub ids: Seq<usize>,
    pub csv: bool,
    pub num_iterations: Count,
    pub num_samples: Count,
    pub num_addresses: usize,
    pub address_ptrs: Seq<usize>,
    pub cursor: Cursor,
    pub running_sum: Double,
    pub running_count: int,
    pub min_latency_by_mean: Option<Extreme>,
    pub max_latency_by_mean: Option<Extreme>,
    pub min_latency_by_median: Option<Extreme>,
    pub max_latency_by_median: Option<Extreme>,
    pub per_address_rows: Seq<PerAddressRow>,
    pub per_pair_summaries: Seq<PerPairSummary>,
    pub legacy_matrix: Seq<Seq<Double>>,
}

impl View for Sweep {
    type V = SweepView;

    open spec fn view(&self) -> SweepView {
        SweepView {
            ids: ids_of(self.cores@),
            csv: self.csv,
            num_iterations: self.num_iterations,
            num_samples: self.num_samples,
            num_addresses: self.num_addresses,
            address_ptrs: self.address_ptrs@,
            cursor: self.cursor,
            running_sum: self.running_sum,
            running_count: self.running_count as int,
            min_latency_by_mean: self.min_latency_by_mean,
            max_latency_by_mean: self.max_latency_by_mean,
            min_latency_by_median: self.min_latency_by_median,
            max_latency_by_median: self.max_latency_by_median,
            per_address_rows: self.per_address_rows@,
            per_pair_summaries: self.per_pair_summaries@,
            legacy_matrix: rows_of(self.legacy_matrix@),
        }
    }
}

/// Whether a sequence is `n` rows of `n` items.
pub open spec fn is_square(matrix: Seq<Seq<Double>>, n: int) -> bool {
    &&& matrix.len() == n
    &&& forall|i: int| 0 <= i < n ==> (#[trigger] matrix[i]).len() == n
}

/// Whether a matrix is the same with rows and columns exchanged.
pub open spec fn is_mirrored(matrix: Seq<Seq<Double>>) -> bool {
    forall|i: int, j: int|
        0 <= i < matrix.len() && 0 <= j < matrix.len() ==> #[trigger] matrix[i][j] == matrix[j][i]
}

/// Whether a matrix has no number where a row meets its own column.
pub open spec fn is_hollow(matrix: Seq<Seq<Double>>) -> bool {
    forall|i: int| 0 <= i < matrix.len() ==> (#[trigger] matrix[i])[i].nan()
}

/// Whether a matrix is nothing but NaNs, all of one bit pattern.
pub open spec fn is_blank(matrix: Seq<Seq<Double>>) -> bool {
    forall|i: int, j: int|
        0 <= i < matrix.len() && 0 <= j < matrix.len() ==> #[trigger] matrix[i][j] == (Double {
            bits: NAN_BITS,
        })
}

/// Whether an extreme is of two of `n` cores.
pub open spec fn is_of(e: Option<Extreme>, n: int) -> bool {
    match e {
        Some(e) => e.i < n && e.j < n,
        None => true,
    }
}

impl SweepView {
    /// What holds of every run: there are two cores or more and a sample or more,
    /// the cursor stands within the run, the extremes are of its cores, and the
    /// tables are there only where they were asked for. The matrix is square.
    pub open spec fn well_formed(self) -> bool {
        let n = self.ids.len() as int;
        &&& 2 <= n <= usize::MAX
        &&& 1 <= self.num_samples < Count::MAX
        &&& self.cursor.within(n)
        &&& is_of(self.min_latency_by_mean, n)
        &&& is_of(self.max_latency_by_mean, n)
        &&& is_of(self.min_latency_by_median, n)
        &&& is_of(self.max_latency_by_median, n)
        &&& self.csv ==> is_square(self.legacy_matrix, n)
        &&& self.csv ==> is_hollow(self.legacy_matrix)
        &&& !self.csv ==> self.legacy_matrix.len() == 0 && self.per_address_rows.len() == 0
            && self.per_pair_summaries.len() == 0
    }

    /// Whether the run has not begun: it stands before its first row, has counted and
    /// found nothing, and its tables are empty.
    pub open spec fn is_at_start(self) -> bool {
        &&& self.well_formed()
        &&& self.cursor == Cursor::Row(0)
        &&& self.running_sum == Double { bits: ZERO_BITS }
        &&& self.running_count == 0
        &&& self.min_latency_by_mean == None::<Extreme>
        &&& self.max_latency_by_mean == None::<Extreme>
        &&& self.min_latency_by_median == None::<Extreme>
        &&& self.max_latency_by_median == None::<Extreme>
        &&& self.per_address_rows == Seq::<PerAddressRow>::empty()
        &&& self.per_pair_summaries == Seq::<PerPairSummary>::empty()
        &&& is_blank(self.legacy_matrix)
    }

    /// The pairs of cores that are still to be measured, where the benchmark is
    /// symmetric, or is not, from here on.
    pub open spec fn remaining(self, symmetric: bool) -> Seq<(int, int)> {
        self.cursor.remaining(self.ids.len() as int, symmetric)
    }

    /// How many steps the run is from its end.
    pub open spec fn distance(self) -> int {
        self.cursor.distance(self.ids.len() as int)
    }

    /// The pair of cores that is to be measured now.
    pub open spec fn current(self) -> Option<(usize, usize)> {
        match self.cursor {
            Cursor::Pair(i, j) => Some((i, j)),
            _ => None,
        }
    }

    /// Whether the next step depends on whether the benchmark is symmetric.
    pub open spec fn asks(self) -> bool {
        match self.cursor {
            Cursor::Cell(_, j) => j < self.ids.len(),
            _ => false,
        }
    }

    /// The virtual address of the address `k`, 0 where it is not known.
    pub open spec fn vaddr(self, k: int) -> usize {
        if k < self.address_ptrs.len() {
            self.address_ptrs[k]
        } else {
            0
        }
    }

    /// The row of the address `k` for the cores `i` and `j`.
    pub open spec fn address_row(
        self,
        i: usize,
        j: usize,
        mem_numa: usize,
        k: int,
        s: Stats,
    ) -> PerAddressRow {
        PerAddressRow {
            ping_core: self.ids[i as int],
            pong_core: self.ids[j as int],
            ping_numa: 0,
            pong_numa: 0,
            mem_numa,
            address: k as usize,
            vaddr: self.vaddr(k),
            mean: s.mean,
            median: s.median,
            min: s.min,
            max: s.max,
            cv_percent: s.cv_percent,
        }
    }

    /// The rows of the addresses that have statistics, each with its NUMA node.
    pub open spec fn address_rows(
        self,
        i: usize,
        j: usize,
        numas: Seq<usize>,
        stats: Seq<Option<Stats>>,
    ) -> Seq<PerAddressRow>
        decreases stats.len(),
    {
        if stats.len() == 0 {
            Seq::empty()
        } else {
            let k = stats.len() - 1;
            let front = self.address_rows(i, j, numas, stats.drop_last());
            match stats.last() {
                Some(s) => front.push(self.address_row(i, j, numas[k], k, s)),
                None => front,
            }
        }
    }

    /// The summary of a pair, with `s`, the statistics of the means of its addresses.
    pub open spec fn pair_summary(self, rec: PairRecord, s: Stats) -> PerPairSummary {
        PerPairSummary {
            ping_core: self.ids[rec.i as int],
            pong_core: self.ids[rec.j as int],
            ping_numa: 0,
            pong_numa: 0,
            mem_numa: rec.pair_numa,
            mean_of_means: rec.mean_of_means,
            mean_of_medians: rec.mean_of_medians,
            min: s.min,
            max: s.max,
            cv_percent: s.cv_percent,
        }
    }

    /// The run after the pair of `rec`, with the new totals `sum` and `count`.
    pub open spec fn noted(self, rec: PairRecord, sum: Double, count: int) -> SweepView {
        let counted = SweepView {
            cursor: Cursor::Cell(rec.i, (rec.j + 1) as usize),
            running_sum: sum,
            running_count: count,
            per_address_rows: if self.csv {
                self.per_address_rows + self.address_rows(rec.i, rec.j, rec.numas@, rec.stats@)
            } else {
                self.per_address_rows
            },
            ..self
        };
        if rec.has_latency() {
            counted.summarised(rec)
        } else {
            counted
        }
    }

    /// The run with the latency of the pair of `rec`.
    pub open spec fn summarised(self, rec: PairRecord) -> SweepView {
        let (i, j) = (rec.i, rec.j);
        SweepView {
            min_latency_by_mean: lowered(self.min_latency_by_mean, rec.mean_of_means, i, j),
            max_latency_by_mean: raised(self.max_latency_by_mean, rec.mean_of_means, i, j),
            min_latency_by_median: lowered(self.min_latency_by_median, rec.mean_of_medians, i, j),
            max_latency_by_median: raised(self.max_latency_by_median, rec.mean_of_medians, i, j),
            legacy_matrix: if self.csv {
                with_latency(self.legacy_matrix, i, j, rec.mean_of_means, rec.symmetric)
            } else {
                self.legacy_matrix
            },
            per_pair_summaries: match rec.pair_stats {
                Some(s) => if self.csv {
                    self.per_pair_summaries.push(self.pair_summary(rec, s))
                } else {
                    self.per_pair_summaries
                },
                None => self.per_pair_summaries,
            },
            ..self
        }
    }
}

/// What to do next in a run.
pub enum Step {
    /// Print the text.
    Print(String),
    /// Nothing: the pair is measured in its other order.
    Skip,
    /// Measure the current pair.
    Measure,
    /// Nothing is left to do.
    Done,
}

/// The line above the matrix: the numbers of the cores.
pub open spec fn header(ids: Seq<usize>) -> Seq<char> {
    spaces(7) + header_cells(ids) + "\n"@
}

/// A field for each core, with its number and some space.
pub open spec fn header_cells(ids: Seq<usize>) -> Seq<char>
    decreases ids.len(),
{
    if ids.len() == 0 {
        Seq::empty()
    } else {
        header_cells(ids.drop_last()) + " "@ + right_aligned(decimal(ids.last() as nat), 4)
            + spaces(4)
    }
}

/// What stands before a row of the matrix: the number of its core.
pub open spec fn row_label(id: usize) -> Seq<char> {
    spaces(4) + right_aligned(decimal(id as nat), 3)
}

/// Whether `step` is the next step of the run `pre`, and `post` the run after it. Where
/// the step depends on whether the benchmark is symmetric, `symmetric` says so.
pub open spec fn is_step(pre: SweepView, symmetric: bool, step: Step, post: SweepView) -> bool {
    let n = pre.ids.len();
    match pre.cursor {
        Cursor::Row(i) => if i < n {
            &&& step matches Step::Print(t)
            &&& t@ == row_label(pre.ids[i as int])
            &&& post == SweepView { cursor: Cursor::Cell(i, 0), ..pre }
        } else {
            &&& step is Done
            &&& post == pre
        },
        Cursor::Cell(i, j) => if j >= n {
            &&& step matches Step::Print(t)
            &&& t@ == "\n"@
            &&& post == SweepView { cursor: Cursor::Row((i + 1) as usize), ..pre }
        } else if is_measured(symmetric, i as int, j as int) {
            &&& step is Measure
            &&& post == SweepView { cursor: Cursor::Pair(i, j), ..pre }
        } else if symmetric {
            &&& step is Skip
            &&& post == SweepView { cursor: Cursor::Cell(i, (j + 1) as usize), ..pre }
        } else {
            &&& step matches Step::Print(t)
            &&& t@ == spaces(9)
            &&& post == SweepView { cursor: Cursor::Cell(i, (j + 1) as usize), ..pre }
        },
        Cursor::Pair(_, _) => {
            &&& step is Measure
            &&& post == pre
        },
    }
}

/// Whether `step` is the next step of the run `pre` of `bench`, and `post` the run after
/// it: where the step depends on whether the benchmark is symmetric, it is asked.
pub open spec fn is_step_of<B: Bench>(
    bench: &B,
    pre: SweepView,
    step: Step,
    post: SweepView,
) -> bool {
    exists|symmetric: bool|
        {
            &&& #[trigger] is_step(pre, symmetric, step, post)
            &&& pre.asks() ==> call_ensures(B::is_symmetric, (bench,), symmetric)
        }
}

/// The run over the cores numbered `ids`, before it starts.
pub open spec fn fresh(
    ids: Seq<usize>,
    args: CliArgs,
    num_addresses: usize,
    address_ptrs: Seq<usize>,
) -> SweepView {
    SweepView {
        ids,
        csv: args.csv,
        num_iterations: args.num_iterations,
        num_samples: args.num_samples,
        num_addresses,
        address_ptrs,
        cursor: Cursor::Row(0),
        running_sum: Double { bits: ZERO_BITS },
        running_count: 0,
        min_latency_by_mean: None,
        max_latency_by_mean: None,
        min_latency_by_median: None,
        max_latency_by_median: None,
        per_address_rows: Seq::empty(),
        per_pair_summaries: Seq::empty(),
        legacy_matrix: if args.csv {
            Seq::new(
                ids.len(),
                |i: int| Seq::new(ids.len(), |j: int| Double { bits: NAN_BITS }),
            )
        } else {
            Seq::empty()
        },
    }
}

/// `n` rows of `n` NaNs.
fn empty_matrix(n: usize) -> (r: Vec<Vec<Double>>)
    ensures
        rows_of(r@) == Seq::new(
            n as nat,
            |i: int| Seq::new(n as nat, |j: int| Double { bits: NAN_BITS }),
        ),
{
    let mut r: Vec<Vec<Double>> = Vec::new();
    let nan = Double { bits: NAN_BITS };
    while r.len() < n
        invariant
            r.len() <= n,
            nan == (Double { bits: NAN_BITS }),
            forall|i: int|
                0 <= i < r.len() ==> (#[trigger] r[i])@ == Seq::new(n as nat, |j: int| nan),
        decreases n - r.len(),
    {
        let mut row: Vec<Double> = Vec::new();
        while row.len() < n
            invariant
                row.len() <= n,
                forall|j: int| 0 <= j < row.len() ==> row[j] == nan,
            decreases n - row.len(),
        {
            row.push(nan);
        }
        assert(row@ =~= Seq::new(n as nat, |j: int| nan));
        r.push(row);
    }
    proof {
        let m = Seq::new(
            n as nat,
            |i: int| Seq::new(n as nat, |j: int| Double { bits: NAN_BITS }),
        );
        assert forall|i: int| 0 <= i < n implies rows_of(r@)[i] == m[i] by {
            assert(r[i]@ == Seq::new(n as nat, |j: int| nan));
            assert(m[i] =~= Seq::new(n as nat, |j: int| nan));
        }
        assert(rows_of(r@) =~= m);
    }
    r
}

/// Opens a run of `bench` over all pairs of `cores`. The caller performs the steps
/// that the run asks for.
pub fn run_bench<B: Bench>(cores: Vec<CoreId>, args: &CliArgs, bench: &B) -> (r: Sweep)
    requires
        cores.len() >= 2,
        1 <= args.num_samples < Count::MAX,
    ensures
        exists|address_ptrs: Vec<usize>| #[trigger]
            call_ensures(B::address_ptrs, (bench,), address_ptrs) && r@ == fresh(
                ids_of(cores@),
                *args,
                r.num_addresses,
                address_ptrs@,
            ),
        r.cores == cores,
        call_ensures(B::num_addresses, (bench,), r.num_addresses),
        r@.well_formed(),
        r@.is_at_start(),
        forall|symmetric: bool| #[trigger]
            r@.remaining(symmetric) == schedule(cores@.len() as int, symmetric),
{
    let num_addresses: usize = bench.num_addresses();
    let address_ptrs = bench.address_ptrs();
    // The answer decides nothing yet, but a benchmark may answer by how often it was
    // asked: it is asked once before the first cell.
    let _ = bench.is_symmetric();
    let legacy_matrix = if args.csv {
        empty_matrix(cores.len())
    } else {
        Vec::new()
    };
    let r = Sweep {
        cores,
        csv: args.csv,
        num_iterations: args.num_iterations,
        num_samples: args.num_samples,
        num_addresses,
        address_ptrs,
        cursor: Cursor::Row(0),
        running_sum: Double::zero(),
        running_count: 0,
        min_latency_by_mean: None,
        max_latency_by_mean: None,
        min_latency_by_median: None,
        max_latency_by_median: None,
        per_address_rows: Vec::new(),
        per_pair_summaries: Vec::new(),
        legacy_matrix,
    };
    assert(r@ =~= fresh(ids_of(cores@), *args, num_addresses, address_ptrs@));
    r
}

impl Sweep {
    /// The line above the matrix.
    pub fn header_text(&self) -> (r: String)
        ensures
            r@ == header(self@.ids),
    {
        let ghost ids = self@.ids;
        let mut r = String::new();
        append_spaces(&mut r, 7);
        let mut i: usize = 0;
        assert(header_cells(ids.take(0)) =~= Seq::empty());
        while i < self.cores.len()
            invariant
                i <= self.cores.len(),
                ids == ids_of(self.cores@),
                r@ =~= spaces(7) + header_cells(ids.take(i as int)),
            decreases self.cores.len() - i,
        {
            r.append(" ");
            append_right_aligned(&mut r, decimal_text(self.cores[i].id).as_str(), 4);
            append_spaces(&mut r, 4);
            assert(ids.take(i + 1).drop_last() =~= ids.take(i as int));
            i = i + 1;
        }
        assert(ids.take(self.cores.len() as int) =~= ids);
        r.append("\n");
        r
    }

    /// The next step of the run. Where it depends on whether the benchmark is symmetric,
    /// `symmetric` says so.
    pub fn proceed(&mut self, symmetric: bool) -> (r: Step)
        requires
            old(self)@.well_formed(),
        ensures
            is_step(old(self)@, symmetric, r, final(self)@),
            final(self)@.well_formed(),
            final(self)@.remaining(symmetric) == old(self)@.remaining(symmetric),
            r is Print || r is Skip ==> 0 <= final(self)@.distance() < old(self)@.distance(),
            r is Done <==> old(self)@.cursor == Cursor::Row(old(self)@.ids.len() as usize),
            r is Done ==> final(self)@.remaining(symmetric).len() == 0,
            r is Measure <==> final(self)@.current() is Some,
            r is Measure ==> 0 <= final(self)@.distance() <= old(self)@.distance(),
    {
        let n: usize = self.cores.len();
        match self.cursor {
            Cursor::Row(i) => {
                if i < n {
                    proof {
                        lemma_distance(n as int, i, 0);
                    }
                    let mut label = String::new();
                    append_spaces(&mut label, 4);
                    append_right_aligned(&mut label, decimal_text(self.cores[i].id).as_str(), 3);
                    assert(label@ =~= row_label(self@.ids[i as int]));
                    self.cursor = Cursor::Cell(i, 0);
                    Step::Print(label)
                } else {
                    Step::Done
                }
            },
            Cursor::Cell(i, j) => {
                proof {
                    lemma_distance(n as int, i, j);
                    if j < n {
                        lemma_distance(n as int, i, (j + 1) as usize);
                    }
                }
                if j >= n {
                    self.cursor = Cursor::Row(i + 1);
                    Step::Print(String::from_str("\n"))
                } else if symmetric {
                    if i <= j {
                        self.cursor = Cursor::Cell(i, j + 1);
                        Step::Skip
                    } else {
                        self.cursor = Cursor::Pair(i, j);
                        Step::Measure
                    }
                } else if i == j {
                    let mut blank = String::new();
                    append_spaces(&mut blank, 9);
                    assert(blank@ =~= spaces(9));
                    self.cursor = Cursor::Cell(i, j + 1);
                    Step::Print(blank)
                } else {
                    self.cursor = Cursor::Pair(i, j);
                    Step::Measure
                }
            },
            Cursor::Pair(i, j) => {
                proof {
                    lemma_distance(n as int, i, (j + 1) as usize);
                }
                Step::Measure
            },
        }
    }

    /// The next step of the run of `bench`, which is asked at each cell whether it is
    /// symmetric.
    pub fn step<B: Bench>(&mut self, bench: &B) -> (r: Step)
        requires
            old(self)@.well_formed(),
        ensures
            is_step_of(bench, old(self)@, r, final(self)@),
            final(self)@.well_formed(),
            r is Print || r is Skip ==> 0 <= final(self)@.distance() < old(self)@.distance(),
            r is Done <==> old(self)@.cursor == Cursor::Row(old(self)@.ids.len() as usize),
            r is Measure <==> final(self)@.current() is Some,
            r is Measure ==> 0 <= final(self)@.distance() <= old(self)@.distance(),
    {
        let symmetric = match self.cursor {
            Cursor::Cell(_, j) => if j < self.cores.len() {
                bench.is_symmetric()
            } else {
                false
            },
            _ => false,
        };
        self.proceed(symmetric)
    }
}

/// The least of `pairs`, each a latency and two cores, taken one after the other.
pub open spec fn least_of(pairs: Seq<Extreme>) -> Option<Extreme>
    decreases pairs.len(),
{
    if pairs.len() == 0 {
        None
    } else {
        let e = pairs.last();
        lowered(least_of(pairs.drop_last()), e.value, e.i, e.j)
    }
}

/// The greatest of `pairs`, each a latency and two cores, taken one after the other.
pub open spec fn greatest_of(pairs: Seq<Extreme>) -> Option<Extreme>
    decreases pairs.len(),
{
    if pairs.len() == 0 {
        None
    } else {
        let e = pairs.last();
        raised(greatest_of(pairs.drop_last()), e.value, e.i, e.j)
    }
}

/// Of numbers taken one after the other, the least that is kept is the first of the
/// least of them. Returns its index.
pub proof fn lemma_least_is_first_least(pairs: Seq<Extreme>) -> (k: int)
    requires
        pairs.len() > 0,
        forall|m: int| 0 <= m < pairs.len() ==> !(#[trigger] pairs[m]).value.nan(),
    ensures
        0 <= k < pairs.len(),
        least_of(pairs) == Some(pairs[k]),
        forall|m: int| 0 <= m < k ==> pairs[k].value.value() < (#[trigger] pairs[m]).value.value(),
        forall|m: int|
            k <= m < pairs.len() ==> pairs[k].value.value() <= (
            #[trigger] pairs[m]).value.value(),
    decreases pairs.len(),
{
    let front = pairs.drop_last();
    if front.len() == 0 {
        assert(least_of(front) == None::<Extreme>);
        0
    } else {
        assert forall|m: int| 0 <= m < front.len() implies !(#[trigger] front[m]).value.nan() by {
            assert(front[m] == pairs[m]);
        }
        let k = lemma_least_is_first_least(front);
        assert forall|m: int| 0 <= m < front.len() implies #[trigger] pairs[m] == front[m] by {}
        if pairs.last().value.below(front[k].value) {
            let n = pairs.len() - 1;
            assert forall|m: int| 0 <= m < n implies pairs[n].value.value() < (
            #[trigger] pairs[m]).value.value() by {
                assert(front[m] == pairs[m]);
            }
            n
        } else {
            assert forall|m: int| 0 <= m < k implies pairs[k].value.value() < (
            #[trigger] pairs[m]).value.value() by {
                assert(front[m] == pairs[m]);
            }
            assert forall|m: int| k <= m < pairs.len() implies pairs[k].value.value() <= (
            #[trigger] pairs[m]).value.value() by {
                if m < front.len() {
                    assert(front[m] == pairs[m]);
                }
            }
            k
        }
    }
}

/// Of numbers taken one after the other, the greatest that is kept is the first of
/// the greatest of them. Returns its index.
pub proof fn lemma_greatest_is_first_greatest(pairs: Seq<Extreme>) -> (k: int)
    requires
        pairs.len() > 0,
        forall|m: int| 0 <= m < pairs.len() ==> !(#[trigger] pairs[m]).value.nan(),
    ensures
        0 <= k < pairs.len(),
        greatest_of(pairs) == Some(pairs[k]),
        forall|m: int| 0 <= m < k ==> (#[trigger] pairs[m]).value.value() < pairs[k].value.value(),
        forall|m: int|
            k <= m < pairs.len() ==> (#[trigger] pairs[m]).value.value()
                <= pairs[k].value.value(),
    decreases pairs.len(),
{
    let front = pairs.drop_last();
    if front.len() == 0 {
        assert(greatest_of(front) == None::<Extreme>);
        0
    } else {
        assert forall|m: int| 0 <= m < front.len() implies !(#[trigger] front[m]).value.nan() by {
            assert(front[m] == pairs[m]);
        }
        let k = lemma_greatest_is_first_greatest(front);
        assert forall|m: int| 0 <= m < front.len() implies #[trigger] pairs[m] == front[m] by {}
        if front[k].value.below(pairs.last().value) {
            let n = pairs.len() - 1;
            assert forall|m: int| 0 <= m < n implies (#[trigger] pairs[m]).value.value()
                < pairs[n].value.value() by {
                assert(front[m] == pairs[m]);
            }
            n
        } else {
            assert forall|m: int| 0 <= m < k implies (#[trigger] pairs[m]).value.value()
                < pairs[k].value.value() by {
                assert(front[m] == pairs[m]);
            }
            assert forall|m: int| k <= m < pairs.len() implies (#[trigger] pairs[m]).value.value()
                <= pairs[k].value.value() by {
                if m < front.len() {
                    assert(front[m] == pairs[m]);
                }
            }
            k
        }
    }
}

} // verus!
