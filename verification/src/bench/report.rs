//! What is printed at the end of a run.

use crate::arithmetic::{is_count, is_fixed, is_over, Arithmetic};
use crate::bench::csv_output::{
    csv_files, is_matrix_table, is_per_address_table, is_per_pair_table, matrix_table, path, CsvFile,
};
use crate::bench::sweep::{Extreme, Sweep, SweepView};
use crate::double::Double;
use crate::style::{bold_white, dimmed_white, paint_bold_white, paint_dimmed_white};
use crate::text::{decimal, decimal_text};
use vstd::prelude::*;
use vstd::string::*;

verus! {

/// Whether `line` tells an extreme, after `label`: the latency with one decimal, and
/// the numbers of its cores. It is empty where there is none.
pub open spec fn is_extreme_line<A: Arithmetic>(
    arith: &A,
    ids: Seq<usize>,
    label: Seq<char>,
    extreme: Option<Extreme>,
    line: Seq<char>,
) -> bool {
    match extreme {
        None => line == Seq::<char>::empty(),
        Some(e) => exists|v: Seq<char>| #[trigger]
            is_fixed(arith, e.value, 1, v) && line == label + bold_white(v) + "ns cores: ("@
                + decimal(ids[e.i as int] as nat) + ","@ + decimal(ids[e.j as int] as nat)
                + ")\n"@,
    }
}

/// Whether `line` tells the mean of all samples with one decimal. It is empty where
/// there are no samples.
pub open spec fn is_overall_line<A: Arithmetic>(
    arith: &A,
    sum: Double,
    count: int,
    line: Seq<char>,
) -> bool {
    if count <= 0 {
        line == Seq::<char>::empty()
    } else {
        exists|n: Double, mean: Double, v: Seq<char>|
            {
                &&& #[trigger] is_count(arith, count, n)
                &&& #[trigger] is_over(arith, sum, n, mean)
                &&& #[trigger] is_fixed(arith, mean, 1, v)
                &&& line == "    Overall mean latency: "@ + bold_white(v) + "ns\n"@
            }
    }
}

/// The report, line by line.
pub open spec fn report_of(
    min_median: Seq<char>,
    max_median: Seq<char>,
    min_mean: Seq<char>,
    max_mean: Seq<char>,
    overall: Seq<char>,
) -> Seq<char> {
    "\n    "@ + dimmed_white("Median-based stats"@) + " (robust to outliers):\n"@ + min_median
        + max_median + "    "@ + dimmed_white("Mean-based stats"@)
        + " (sensitive to outliers):\n"@ + min_mean + max_mean + overall
}

/// Whether `text` reports the run: its extremes by median and by mean, and the mean
/// of all samples.
pub open spec fn is_report<A: Arithmetic>(arith: &A, run: SweepView, text: Seq<char>) -> bool {
    exists|a: Seq<char>, b: Seq<char>, c: Seq<char>, d: Seq<char>, e: Seq<char>|
        {
            &&& is_extreme_line(
                arith,
                run.ids,
                "      Min  latency: "@,
                run.min_latency_by_median,
                a,
            )
            &&& is_extreme_line(
                arith,
                run.ids,
                "      Max  latency: "@,
                run.max_latency_by_median,
                b,
            )
            &&& is_extreme_line(
                arith,
                run.ids,
                "      Min  latency: "@,
                run.min_latency_by_mean,
                c,
            )
            &&& is_extreme_line(
                arith,
                run.ids,
                "      Max  latency: "@,
                run.max_latency_by_mean,
                d,
            )
            &&& is_overall_line(arith, run.running_sum, run.running_count, e)
            &&& text == #[trigger] report_of(a, b, c, d, e)
        }
}

impl Sweep {
    /// The line that tells an extreme.
    fn extreme_line<A: Arithmetic>(
        &self,
        label: &str,
        extreme: Option<Extreme>,
        arith: &A,
    ) -> (r: String)
        requires
            extreme matches Some(e) ==> e.i < self.cores.len() && e.j < self.cores.len(),
        ensures
            is_extreme_line(arith, self@.ids, label@, extreme, r@),
    {
        match extreme {
            None => String::new(),
            Some(e) => {
                let v = arith.fixed(e.value, 1);
                assert(call_ensures(A::fixed, (arith, e.value, 1usize), v));
                assert(is_fixed(arith, e.value, 1, v@));
                let mut r = String::from_str(label);
                r.append(paint_bold_white(v.as_str()).as_str());
                r.append("ns cores: (");
                r.append(decimal_text(self.cores[e.i].id).as_str());
                r.append(",");
                r.append(decimal_text(self.cores[e.j].id).as_str());
                r.append(")\n");
                r
            },
        }
    }

    /// The line that tells the mean of all samples.
    fn overall_line<A: Arithmetic>(&self, arith: &A) -> (r: String)
        ensures
            is_overall_line(arith, self.running_sum, self.running_count as int, r@),
    {
        if self.running_count == 0 {
            return String::new();
        }
        let n = arith.from_count(self.running_count as u128);
        let mean = arith.over(self.running_sum, n);
        let v = arith.fixed(mean, 1);
        proof {
            assert(is_count(arith, self.running_count as int, n));
            assert(is_over(arith, self.running_sum, n, mean));
            assert(call_ensures(A::fixed, (arith, mean, 1usize), v));
            assert(is_fixed(arith, mean, 1, v@));
        }
        let mut r = String::from_str("    Overall mean latency: ");
        r.append(paint_bold_white(v.as_str()).as_str());
        r.append("ns\n");
        r
    }

    /// What is printed at the end of the run.
    pub fn report<A: Arithmetic>(&self, arith: &A) -> (r: String)
        requires
            self@.well_formed(),
        ensures
            is_report(arith, self@, r@),
    {
        let a = self.extreme_line("      Min  latency: ", self.min_latency_by_median, arith);
        let b = self.extreme_line("      Max  latency: ", self.max_latency_by_median, arith);
        let c = self.extreme_line("      Min  latency: ", self.min_latency_by_mean, arith);
        let d = self.extreme_line("      Max  latency: ", self.max_latency_by_mean, arith);
        let e = self.overall_line(arith);
        let mut r = String::from_str("\n    ");
        r.append(paint_dimmed_white("Median-based stats").as_str());
        r.append(" (robust to outliers):\n");
        r.append(a.as_str());
        r.append(b.as_str());
        r.append("    ");
        r.append(paint_dimmed_white("Mean-based stats").as_str());
        r.append(" (sensitive to outliers):\n");
        r.append(c.as_str());
        r.append(d.as_str());
        r.append(e.as_str());
        assert(r@ == report_of(a@, b@, c@, d@, e@));
        r
    }

    /// The table files of the run, where tables were asked for.
    pub fn csv_files<A: Arithmetic>(&self, prefix: &str, bench_name: &str, arith: &A) -> (r: Option<
        (CsvFile, CsvFile),
    >)
        ensures
            r is Some <==> self.csv,
            r matches Some(files) ==> {
                &&& files.0.path@ == path(prefix@, bench_name@, "per_address"@)
                &&& is_per_address_table(arith, self@.per_address_rows, files.0.text@)
                &&& files.1.path@ == path(prefix@, bench_name@, "summary"@)
                &&& is_per_pair_table(arith, self@.per_pair_summaries, files.1.text@)
                &&& call_ensures(
                    csv_files::<A>,
                    (
                        prefix,
                        bench_name,
                        &self.per_address_rows,
                        &self.per_pair_summaries,
                        arith,
                    ),
                    files,
                )
            },
    {
        if self.csv {
            Some(
                csv_files(
                    prefix,
                    bench_name,
                    &self.per_address_rows,
                    &self.per_pair_summaries,
                    arith,
                ),
            )
        } else {
            None
        }
    }

    /// The matrix of the run, where tables were asked for.
    pub fn matrix_csv<A: Arithmetic>(&self, arith: &A) -> (r: Option<String>)
        requires
            self@.well_formed(),
        ensures
            r is Some <==> self.csv,
            r matches Some(t) ==> is_matrix_table(arith, self@.ids, self@.legacy_matrix, t@),
            r matches Some(t) ==> call_ensures(
                matrix_table::<A>,
                (&self.cores, &self.legacy_matrix, arith),
                t,
            ),
    {
        if self.csv {
            Some(matrix_table(&self.cores, &self.legacy_matrix, arith))
        } else {
            None
        }
    }
}

} // verus!
